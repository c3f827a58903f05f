use vstd::prelude::*;
use vstd::string::StringExecFns;

use crate::bindings::{bindings_of, Bindings};
use crate::builtin::registry;
use crate::call::{has_hole, is_hole_exec, make_partial, partial_model};
use crate::env::{
    confined, root_of, lemma_child_confined, lemma_fresh_untouched, lemma_global_confined,
    lemma_reserved_confined, local_of, resolve, seeded_bindings, Env, Frame,
};
use crate::error::{ErrorKind, EvalError};
use crate::host::Host;
use crate::ops::{
    arith_outcome,     all_equal, append, arith, compare, index, join_texts, modulo, prepend, range, reverse, slice,
    tangle, zip, ArithOp, CmpOp,
};
use crate::parse::parse_program;
use crate::sem::{
    agrees, agrees_all, fm, lemma_args_stop, lemma_fm_bind, lemma_fm_prefix, lemma_fm_push,
    lemma_fm_resolve, lemma_forms_stop, sem_args, sem_builtin, sem_callee, sem_child, sem_eval,
    sem_forms, sem_list, Outcome, Outcomes,
};
use crate::text::{int_text, join2, split_text};
use crate::value::{copy_list, lemma_models, models, type_error, Expression, Prim, Value};

verus! {

broadcast use crate::env::lemma_confined_chain;

/// How deeply evaluation may nest before it fails with a limit error.
pub const MAX_DEPTH: u64 = 256;

/// How many frames may be open at once.
pub const MAX_FRAMES: usize = 100000;

/// What a symbol evaluates to: its binding, or nil where it has none.
pub open spec fn symbol_value(fs: Seq<Frame>, frame: int, name: Seq<char>) -> Value {
    match resolve(fs, frame, name) {
        Some(v) => v,
        None => Value::Nil,
    }
}

/// The value of a head that is not a list: a symbol's binding (or nil),
/// any other atom itself.
pub open spec fn head_value(fs: Seq<Frame>, frame: int, head: Expression) -> Value {
    match head {
        Expression::Symbol(s) => symbol_value(fs, frame, s@),
        _ => head.model(),
    }
}

pub open spec fn is_callable(v: Value) -> bool {
    v is Function || v is Builtin
}

/// The state after evaluating in `frame`: well formed, and changed only as
/// `confined` allows.
pub open spec fn settled(a: Env, b: Env, frame: usize) -> bool {
    &&& b.wf()
    &&& frame < b.frames@.len()
    &&& confined(a.frames@, b.frames@, frame as int)
}

/// How a call `list` is dispatched once its head has the value `callee`
/// (a function): with no arguments it is the function itself, with too
/// many it fails, and with too few, or with a placeholder, it is a partial
/// application.
pub open spec fn function_call_result(
    callee: Value,
    list: Seq<Expression>,
    r: Result<Expression, EvalError>,
) -> bool {
    match callee {
        Value::Function { params, body } => {
            let k = list.len() - 1;
            let args = models(list).drop_first();
            &&& (k == 0 && params.len() > 0) ==> r is Ok && r->Ok_0.model() == callee
            &&& k > params.len() ==> r is Err && r->Err_0.kind == ErrorKind::Arity
            &&& (0 < k <= params.len() && (k < params.len() || has_hole(args))) ==> r is Ok
                && r->Ok_0.model() == partial_model(list[0].model(), params, args)
        },
        _ => true,
    }
}

/// `vs` can be the values of the arguments `list[1..]`: one for each, and
/// equal to the argument itself wherever that is neither a list nor a
/// symbol, which stand for themselves.
pub open spec fn evaluated_from(vs: Seq<Value>, list: Seq<Expression>) -> bool {
    &&& vs.len() == list.len() - 1
    &&& forall|i: int|
        0 <= i < vs.len() ==> (!(list[i + 1] is List) && !(list[i + 1] is Symbol) ==> #[trigger] vs[i]
            == list[i + 1].model())
}

/// What `(define name value)` did to the frames, from `a` to `b`: `name`
/// is now bound in the outermost frame above `frame`, to the value itself
/// where that is an atom other than a symbol.
pub open spec fn define_effect(list: Seq<Expression>, a: Seq<Frame>, b: Seq<Frame>, frame: int) -> bool {
    &&& list.len() == 3
    &&& list[1] is Symbol
    &&& local_of(b, root_of(a, frame)).contains_key(list[1]->Symbol_0@)
    &&& (!(list[2] is List) && !(list[2] is Symbol)) ==> local_of(b, root_of(a, frame))[list[1]->Symbol_0@]
        == list[2].model()
}

/// `(slice start len items)` gave `out` from the argument values `vs`:
/// `start` and `len` are integers, not negative, whose sum does not pass
/// the end of the list `items`, and `out` is that part of it.
pub open spec fn slice_outcome(vs: Seq<Value>, out: Value) -> bool {
    &&& vs.len() == 3
    &&& vs[0] is Integer && vs[1] is Integer && vs[2] is List
    &&& 0 <= vs[0]->Integer_0 && 0 <= vs[1]->Integer_0
    &&& vs[0]->Integer_0 + vs[1]->Integer_0 <= vs[2]->List_0.len()
    &&& out == Value::List(
        vs[2]->List_0.subrange(vs[0]->Integer_0 as int, vs[0]->Integer_0 + vs[1]->Integer_0),
    )
}

/// The arithmetic operation of a builtin, if it has one.
pub open spec fn arith_op_of(p: Prim) -> Option<ArithOp> {
    match p {
        Prim::Plus => Some(ArithOp::Add),
        Prim::Minus => Some(ArithOp::Sub),
        Prim::Multiply => Some(ArithOp::Mul),
        Prim::Divide => Some(ArithOp::Div),
        _ => None,
    }
}

/// What some builtins give, whatever the state: `quote` and `lazy` their
/// one argument as it stands, `function` a function of the parameters and
/// body as they stand.
pub open spec fn builtin_result(p: Prim, list: Seq<Expression>, r: Result<Expression, EvalError>) -> bool {
    match p {
        Prim::Quote | Prim::Lazy => {
            &&& list.len() == 2 ==> r is Ok && r->Ok_0.model() == list[1].model()
            &&& list.len() != 2 ==> r is Err && r->Err_0.kind == ErrorKind::Arity
        },
        Prim::Function => {
            &&& (list.len() == 3 && list[1] is List && forall|j: int|
                0 <= j < list[1]->List_0@.len() ==> #[trigger] list[1]->List_0@[j] is Symbol) ==> r is Ok
                && r->Ok_0.model() == (Value::Function {
                params: models(list[1]->List_0@),
                body: Box::new(list[2].model()),
            })
        },
        Prim::Slice => r is Ok ==> exists|vs: Seq<Value>|
            #[trigger] evaluated_from(vs, list) && slice_outcome(vs, r->Ok_0.model()),
        Prim::Plus | Prim::Minus | Prim::Multiply | Prim::Divide => r is Ok ==> exists|vs: Seq<Value>|
            evaluated_from(vs, list) && crate::ops::arith_outcome(
                arith_op_of(p)->0,
                vs,
                r,
            ),
        _ => true,
    }
}

fn limit_error() -> (r: EvalError)
    ensures
        r.kind == ErrorKind::Limit,
{
    EvalError::new(ErrorKind::Limit, "evaluation nests too deeply")
}

fn arity_error() -> (r: EvalError)
    ensures
        r.kind == ErrorKind::Arity,
{
    EvalError::new(ErrorKind::Arity, "wrong number of arguments")
}

/// Fails unless the call `list` has exactly `n` arguments.
fn arity(list: &Vec<Expression>, n: usize) -> (r: Result<(), EvalError>)
    ensures
        r is Ok <==> list@.len() == n + 1,
        r is Err ==> r->Err_0.kind == ErrorKind::Arity,
{
    if n < list.len() && list.len() - 1 == n {
        Ok(())
    } else {
        Err(arity_error())
    }
}

/// Evaluates `expr` in frame `frame`, nesting at most `MAX_DEPTH` deep.
pub fn eval_expression<H: Host>(env: &mut Env, frame: usize, expr: &Expression, host: &mut H) -> (r:
    Result<Expression, EvalError>)
    requires
        old(env).wf(),
        frame < old(env).frames@.len(),
    ensures
        settled(*old(env), *final(env), frame),
        !(expr is List) && !(expr is Symbol) ==> r is Ok && r->Ok_0.model() == expr.model()
            && final(env).frames@ == old(env).frames@,
        expr is Symbol ==> r is Ok && r->Ok_0.model() == symbol_value(
            old(env).frames@,
            frame as int,
            expr->Symbol_0@,
        ) && final(env).frames@ == old(env).frames@,
        expr is List && expr->List_0@.len() == 0 ==> r is Ok && r->Ok_0.model() == expr.model()
            && final(env).frames@ == old(env).frames@,
        !(expr is List) ==> final(env).count == old(env).count,
        agrees(sem_eval(fm(old(env).frames@), frame as int, expr.model(), MAX_DEPTH as nat), final(env).frames@, r),
{
    eval_in(env, frame, expr, host, MAX_DEPTH)
}

/// Evaluation: atoms stand for themselves, a symbol for its binding (nil
/// where it has none), a non-empty list is a call.
pub fn eval_in<H: Host>(
    env: &mut Env,
    frame: usize,
    expr: &Expression,
    host: &mut H,
    depth: u64,
) -> (r: Result<Expression, EvalError>)
    requires
        old(env).wf(),
        frame < old(env).frames@.len(),
    ensures
        settled(*old(env), *final(env), frame),
        !(expr is List) && !(expr is Symbol) ==> r is Ok && r->Ok_0.model() == expr.model()
            && final(env).frames@ == old(env).frames@,
        expr is Symbol ==> r is Ok && r->Ok_0.model() == symbol_value(
            old(env).frames@,
            frame as int,
            expr->Symbol_0@,
        ) && final(env).frames@ == old(env).frames@,
        expr is List && expr->List_0@.len() == 0 ==> r is Ok && r->Ok_0.model() == expr.model()
            && final(env).frames@ == old(env).frames@,
        agrees(sem_eval(fm(old(env).frames@), frame as int, expr.model(), depth as nat), final(env).frames@, r),
        !(expr is List) ==> final(env).count == old(env).count,
    decreases depth, 0int,
{
    proof {
        if let Expression::Symbol(s) = expr {
            lemma_fm_resolve(env.frames@, frame as int, s@);
        }
    }
    match expr {
        Expression::Symbol(s) => match env.get(frame, s.as_str()) {
            Some(v) => Ok(v),
            None => Ok(Expression::Nil),
        },
        Expression::List(l) => {
            if l.len() == 0 {
                let e: Vec<Expression> = Vec::new();
                assert(models(e@) =~= models(l@));
                return Ok(Expression::List(e));
            }
            if depth == 0 {
                return Err(limit_error());
            }
            eval_list(env, frame, l, host, depth - 1)
        },
        _ => Ok(expr.clone()),
    }
}

/// A call: the head is evaluated (and once more, where that gives a list).
/// A function or builtin is then applied; any other head makes the list
/// data, returned as it stands.
pub fn eval_list<H: Host>(
    env: &mut Env,
    frame: usize,
    list: &Vec<Expression>,
    host: &mut H,
    depth: u64,
) -> (r: Result<Expression, EvalError>)
    requires
        old(env).wf(),
        frame < old(env).frames@.len(),
        list@.len() > 0,
    ensures
        settled(*old(env), *final(env), frame),
        !(list@[0] is List) ==> {
            let hv = head_value(old(env).frames@, frame as int, list@[0]);
            &&& (!is_callable(hv) && !(hv is List)) ==> r is Ok && r->Ok_0.model() == Value::List(
                models(list@),
            ) && final(env).frames@ == old(env).frames@
            &&& function_call_result(hv, list@, r)
            &&& hv is Builtin ==> builtin_result(hv->Builtin_0, list@, r)
            &&& (hv is Builtin && r is Err) ==> r->Err_0.notes@.len() > 0 && note_of_call(
                r->Err_0.notes@.last()@,
                list@,
            )
            &&& (hv == Value::Builtin(Prim::Import) && r is Ok) ==> exists|text: Seq<char>, forms: Seq<Value>, t: Map<Seq<char>, Value>|
                #[trigger] import_effect(fm(old(env).frames@), fm(final(env).frames@), frame as int, depth as nat, text, forms, t)
            &&& (hv == Value::Builtin(Prim::Define) && r is Ok) ==> define_effect(
                list@,
                old(env).frames@,
                final(env).frames@,
                frame as int,
            )
        },
        agrees(sem_list(fm(old(env).frames@), frame as int, models(list@), depth as nat), final(env).frames@, r),
    decreases depth, 6int,
{
    proof {
        lemma_models(list@);
    }
    let head = eval_in(env, frame, &list[0], host, depth)?;
    let callee = if let Expression::List(_) = head {
        eval_in(env, frame, &head, host, depth)?
    } else {
        head
    };
    match callee {
        Expression::Function { .. } => dispatch(env, frame, &callee, list, host, depth),
        Expression::Builtin(_) => dispatch(env, frame, &callee, list, host, depth),
        _ => Ok(Expression::List(copy_list(list))),
    }
}

/// Applies a function or builtin to the unevaluated arguments `list[1..]`.
/// A function of `n` parameters given `n` arguments, none of them `_`,
/// has them evaluated in the caller's frame and bound in a new frame whose
/// parent is the caller's (not the frame where the function was written),
/// where its body is evaluated.
fn dispatch<H: Host>(
    env: &mut Env,
    frame: usize,
    callee: &Expression,
    list: &Vec<Expression>,
    host: &mut H,
    depth: u64,
) -> (r: Result<Expression, EvalError>)
    requires
        old(env).wf(),
        frame < old(env).frames@.len(),
        list@.len() > 0,
        callee is Function || callee is Builtin,
    ensures
        settled(*old(env), *final(env), frame),
        function_call_result(callee.model(), list@, r),
        callee is Builtin ==> builtin_result(callee->Builtin_0, list@, r),
        callee is Builtin && r is Err ==> r->Err_0.notes@.len() > 0,
        callee is Builtin && r is Err ==> note_of_call(r->Err_0.notes@.last()@, list@),
        callee == Expression::Builtin(Prim::Import) && r is Ok ==> exists|text: Seq<char>, forms: Seq<Value>, t: Map<Seq<char>, Value>|
            #[trigger] import_effect(fm(old(env).frames@), fm(final(env).frames@), frame as int, depth as nat, text, forms, t),
        callee == Expression::Builtin(Prim::Define) && r is Ok ==> define_effect(
            list@,
            old(env).frames@,
            final(env).frames@,
            frame as int,
        ),
        callee is Function && ((list@.len() == 1 && callee->arguments@.len() > 0) || list@.len() - 1 > callee->arguments@.len()
            || list@.len() - 1 < callee->arguments@.len() || has_hole(models(list@).drop_first()))
            ==> final(env).frames@ == old(env).frames@,
        agrees(
            sem_callee(fm(old(env).frames@), frame as int, callee.model(), models(list@), depth as nat),
            final(env).frames@,
            r,
        ),
    decreases depth, 5int,
{
    if env.count < u64::MAX {
        env.count = env.count + 1;
    }
    proof {
        lemma_models(list@);
    }
    match callee {
        Expression::Function { arguments, body } => {
            proof {
                lemma_models(arguments@);
            }
            let k = list.len() - 1;
            let n = arguments.len();
            if k == 0 && n > 0 {
                return Ok(callee.clone());
            }
            if k > n {
                return Err(arity_error());
            }
            if k < n || holes_in(list) {
                return Ok(make_partial(list, arguments));
            }
            if n == 0 {
                return eval_in_child(env, frame, seeded_bindings(), body, host, depth);
            }
            let ghost ms0 = fm(env.frames@);
            let ghost pm = models(arguments@);
            assert(callee.model() == Value::Function { params: pm, body: Box::new(body.model()) });
            let ra = eval_args(env, frame, list, host, depth);
            let vals = ra?;
            assert(forall|e: EvalError| #[trigger] function_call_result(callee.model(), list@, Err::<Expression, EvalError>(e)));
            let ghost vm = models(vals@);
            let ghost ms1 = fm(env.frames@);
            let ghost open = !(sem_args(ms0, frame as int, models(list@), n as int, depth as nat) is Done);
            proof {
                lemma_models(vals@);
            }
            let mut b = seeded_bindings();
            let mut i: usize = 0;
            while i < n
                invariant
                    i <= n,
                    n == arguments@.len(),
                    vals@.len() == n,
                    env.wf(),
                    frame < env.frames@.len(),
                    confined(old(env).frames@, env.frames@, frame as int),
                    list@.len() == n + 1,
                    n > 0,
                    !has_hole(models(list@).drop_first()),
                    callee is Function,
                    callee->arguments@ == arguments@,
                    forall|e: EvalError| #[trigger] function_call_result(callee.model(), list@, Err::<Expression, EvalError>(e)),
                    pm == models(arguments@),
                    vm == models(vals@),
                    ms0 == fm(old(env).frames@),
                    open == !(sem_args(ms0, frame as int, models(list@), n as int, depth as nat) is Done),
                    ms1 == fm(env.frames@),
                    forall|j: int| 0 <= j < pm.len() ==> #[trigger] pm[j] == arguments@[j].model(),
                    forall|j: int| 0 <= j < vm.len() ==> #[trigger] vm[j] == vals@[j].model(),
                    pm.len() == n,
                    vm.len() == n,
                    forall|j: int| 0 <= j < i ==> #[trigger] pm[j] is Symbol,
                    bindings_of(b) == crate::sem::bind_params(pm, vm, i as int),
                    open ==> sem_callee(ms0, frame as int, callee.model(), models(list@), depth as nat) is Open,
                    !open ==> sem_callee(ms0, frame as int, callee.model(), models(list@), depth as nat)
                        == (if !crate::sem::all_symbols(pm) {
                        Outcome::Failed(ErrorKind::Type, ms1)
                    } else {
                        sem_child(ms1, frame as int, crate::sem::bind_params(pm, vm, n as int), body.model(), depth as nat)
                    }),
                decreases n - i,
            {
                if !matches!(arguments[i], Expression::Symbol(_)) {
                    assert(!(pm[i as int] is Symbol));
                    assert(!crate::sem::all_symbols(pm));
                }
                let name = arguments[i].as_symbol_string()?;
                b.insert(name, vals[i].clone());
                i = i + 1;
            }
            eval_in_child(env, frame, b, body, host, depth)
        },
        Expression::Builtin(p) => {
            proof {
                if !crate::sem::covered(*p) {
                    crate::sem::lemma_uncovered_open(fm(old(env).frames@), frame as int, *p, models(list@), depth as nat);
                }
            }
            let r = call_builtin(env, frame, *p, list, host, depth);
            match r {
                Ok(v) => Ok(v),
                Err(e) => {
                    let call = Expression::List(copy_list(list));
                    let shown = call.as_debug_string(&*host);
                    proof {
                        reveal_strlit("Evaluating: ");
                    }
                    let note = join2(String::from_str("Evaluating: "), shown.as_str());
                    assert(note@.subrange(0, 12) =~= "Evaluating: "@);
                    Err(e.note(note))
                },
            }
        },
        _ => Err(type_error("not callable")),
    }
}

/// Whether some argument of the call `list` is the placeholder `_`.
fn holes_in(list: &Vec<Expression>) -> (r: bool)
    requires
        list@.len() > 0,
    ensures
        r == has_hole(models(list@).drop_first()),
{
    let ghost args = models(list@).drop_first();
    proof {
        lemma_models(list@);
    }
    let mut i: usize = 1;
    while i < list.len()
        invariant
            1 <= i <= list@.len(),
            args == models(list@).drop_first(),
            forall|j: int| 0 <= j < list@.len() ==> #[trigger] models(list@)[j] == list@[j].model(),
            forall|j: int| 0 <= j < i - 1 ==> !crate::call::is_hole(#[trigger] args[j]),
        decreases list@.len() - i,
    {
        if is_hole_exec(&list[i]) {
            assert(crate::call::is_hole(args[i - 1]));
            return true;
        }
        i = i + 1;
    }
    false
}

/// The values of the arguments `list[1..]`, evaluated left to right.
fn eval_args<H: Host>(
    env: &mut Env,
    frame: usize,
    list: &Vec<Expression>,
    host: &mut H,
    depth: u64,
) -> (r: Result<Vec<Expression>, EvalError>)
    requires
        old(env).wf(),
        frame < old(env).frames@.len(),
        list@.len() > 0,
    ensures
        settled(*old(env), *final(env), frame),
        r is Ok ==> r->Ok_0@.len() == list@.len() - 1,
        r is Ok ==> evaluated_from(models(r->Ok_0@), list@),
        agrees_all(
            sem_args(fm(old(env).frames@), frame as int, models(list@), list@.len() - 1, depth as nat),
            final(env).frames@,
            r,
        ),
    decreases depth, 1int,
{
    let ghost f0 = env.frames@;
    let ghost ms0 = fm(env.frames@);
    let ghost items = models(list@);
    proof {
        lemma_models(list@);
    }
    let mut vals: Vec<Expression> = Vec::new();
    assert(models(vals@) =~= Seq::<Value>::empty());
    let mut i: usize = 1;
    while i < list.len()
        invariant
            1 <= i <= list@.len(),
            vals@.len() == i - 1,
            forall|j: int|
                0 <= j < i - 1 ==> (!(list@[j + 1] is List) && !(list@[j + 1] is Symbol) ==> #[trigger] vals@[j].model()
                    == list@[j + 1].model()),
            env.wf(),
            frame < env.frames@.len(),
            confined(old(env).frames@, env.frames@, frame as int),
            ms0 == fm(old(env).frames@),
            items == models(list@),
            forall|j: int| 0 <= j < list@.len() ==> #[trigger] items[j] == list@[j].model(),
            sem_args(ms0, frame as int, items, i - 1, depth as nat) is Done ==> sem_args(
                ms0,
                frame as int,
                items,
                i - 1,
                depth as nat,
            ) == Outcomes::Done(models(vals@), fm(env.frames@)),
            !(sem_args(ms0, frame as int, items, i - 1, depth as nat) is Done) ==> sem_args(
                ms0,
                frame as int,
                items,
                list@.len() - 1,
                depth as nat,
            ) is Open,
        decreases list@.len() - i,
    {
        let ghost before = vals@;
        let r = eval_in(env, frame, &list[i], host, depth);
        proof {
            if sem_args(ms0, frame as int, items, i - 1, depth as nat) is Done && !(sem_args(ms0, frame as int, items, i as int, depth as nat) is Done) {
                lemma_args_stop(ms0, frame as int, items, i as int, list@.len() - 1, depth as nat);
            }
        }
        let v = r?;
        vals.push(v);
        proof {
            lemma_models(before);
            lemma_models(vals@);
            assert(models(vals@) =~= models(before).push(v.model()));
        }
        i = i + 1;
    }
    proof {
        lemma_models(vals@);
    }
    Ok(vals)
}

/// Evaluates `expr` in a new frame, child of `frame`, that holds `local`;
/// the frame is closed again afterwards.
fn eval_in_child<H: Host>(
    env: &mut Env,
    frame: usize,
    local: Bindings,
    expr: &Expression,
    host: &mut H,
    depth: u64,
) -> (r: Result<Expression, EvalError>)
    requires
        old(env).wf(),
        frame < old(env).frames@.len(),
    ensures
        settled(*old(env), *final(env), frame),
        agrees(
            sem_child(fm(old(env).frames@), frame as int, bindings_of(local), expr.model(), depth as nat),
            final(env).frames@,
            r,
        ),
    decreases depth, 1int,
{
    let n = env.frames.len();
    if n >= MAX_FRAMES {
        return Err(limit_error());
    }
    let ghost a = env.frames@;
    let ghost lg = local;
    let child = env.open_frame(Some(frame), local);
    proof {
        lemma_fm_push(a, Frame { parent: Some(frame), local: lg });
    }
    let r = eval_in(env, child, expr, host, depth);
    proof {
        lemma_child_confined(a, env.frames@, frame as int, lg);
        lemma_fm_prefix(env.frames@, n as int);
    }
    env.close_frames(n);
    r
}

/// Calls `f` on the values `vals`: each is passed quoted, so that it
/// reaches `f` as it is.
fn apply_values<H: Host>(
    env: &mut Env,
    frame: usize,
    f: &Expression,
    vals: Vec<Expression>,
    host: &mut H,
    depth: u64,
) -> (r: Result<Expression, EvalError>)
    requires
        old(env).wf(),
        frame < old(env).frames@.len(),
    ensures
        settled(*old(env), *final(env), frame),
        agrees(
            sem_list(fm(old(env).frames@), frame as int, crate::sem::quoted_call(f.model(), models(vals@)), depth as nat),
            final(env).frames@,
            r,
        ),
    decreases depth, 7int,
{
    let mut call: Vec<Expression> = Vec::new();
    call.push(f.clone());
    let mut i: usize = 0;
    while i < vals.len()
        invariant
            i <= vals@.len(),
            call@.len() == i + 1,
            call@[0].model() == f.model(),
            forall|j: int| 0 <= j < i ==> #[trigger] call@[j + 1].model() == Value::List(
                seq![Value::Builtin(Prim::Quote), vals@[j].model()],
            ),
        decreases vals@.len() - i,
    {
        let mut q: Vec<Expression> = Vec::new();
        q.push(Expression::Builtin(Prim::Quote));
        q.push(vals[i].clone());
        proof {
            lemma_models(q@);
            assert(models(q@) =~= seq![Value::Builtin(Prim::Quote), vals@[i as int].model()]);
        }
        call.push(Expression::List(q));
        i = i + 1;
    }
    proof {
        lemma_models(call@);
        lemma_models(vals@);
        let qc = crate::sem::quoted_call(f.model(), models(vals@));
        assert forall|t: int| 0 <= t < call@.len() implies models(call@)[t] == qc[t] by {
            if t > 0 {
                assert(call@[(t - 1) + 1].model() == Value::List(seq![Value::Builtin(Prim::Quote), vals@[t - 1].model()]));
            }
        }
        assert(models(call@) =~= qc);
    }
    eval_list(env, frame, &call, host, depth)
}

/// Evaluates each of `forms` in turn in `frame`; the value of the last, or
/// nil where there is none.
pub fn run_forms<H: Host>(
    env: &mut Env,
    frame: usize,
    forms: &Vec<Expression>,
    host: &mut H,
    depth: u64,
) -> (r: Result<Expression, EvalError>)
    requires
        old(env).wf(),
        frame < old(env).frames@.len(),
    ensures
        settled(*old(env), *final(env), frame),
        forms@.len() == 0 ==> r is Ok && r->Ok_0 is Nil,
        agrees(
            sem_forms(fm(old(env).frames@), frame as int, models(forms@), forms@.len() as int, depth as nat),
            final(env).frames@,
            r,
        ),
    decreases depth, 1int,
{
    let ghost ms0 = fm(env.frames@);
    let ghost fs = models(forms@);
    proof {
        lemma_models(forms@);
    }
    let mut last = Expression::Nil;
    let mut i: usize = 0;
    while i < forms.len()
        invariant
            i <= forms@.len(),
            env.wf(),
            frame < env.frames@.len(),
            confined(old(env).frames@, env.frames@, frame as int),
            forms@.len() == 0 ==> last is Nil,
            ms0 == fm(old(env).frames@),
            fs == models(forms@),
            forall|j: int| 0 <= j < forms@.len() ==> #[trigger] fs[j] == forms@[j].model(),
            sem_forms(ms0, frame as int, fs, i as int, depth as nat) is Done ==> sem_forms(
                ms0,
                frame as int,
                fs,
                i as int,
                depth as nat,
            ) == Outcome::Done(last.model(), fm(env.frames@)),
            sem_forms(ms0, frame as int, fs, i as int, depth as nat) is FloatDone ==> sem_forms(
                ms0,
                frame as int,
                fs,
                i as int,
                depth as nat,
            ) == Outcome::FloatDone(fm(env.frames@)) && last is Float,
            !(sem_forms(ms0, frame as int, fs, i as int, depth as nat) is Done)
                && !(sem_forms(ms0, frame as int, fs, i as int, depth as nat) is FloatDone) ==> sem_forms(
                ms0,
                frame as int,
                fs,
                forms@.len() as int,
                depth as nat,
            ) is Open,
        decreases forms@.len() - i,
    {
        let r = eval_in(env, frame, &forms[i], host, depth);
        proof {
            let o0 = sem_forms(ms0, frame as int, fs, i as int, depth as nat);
            let o1 = sem_forms(ms0, frame as int, fs, i + 1, depth as nat);
            if (o0 is Done || o0 is FloatDone) && !(o1 is Done) && !(o1 is FloatDone) {
                lemma_forms_stop(ms0, frame as int, fs, i + 1, forms@.len() as int, depth as nat);
            }
            if !(o0 is Done) && !(o0 is FloatDone) {
                assert(!(o1 is Done) && !(o1 is FloatDone));
            }
        }
        last = r?;
        i = i + 1;
    }
    Ok(last)
}

/// Parses `input` and evaluates its top-level forms in turn in the
/// outermost frame; returns the value of the last.
pub fn run<H: Host>(env: &mut Env, host: &mut H, input: &str) -> (r: Result<Expression, EvalError>)
    requires
        old(env).wf(),
    ensures
        settled(*old(env), *final(env), 0),
        (forall|j: int| 0 <= j < input@.len() ==> crate::parse::is_ws(#[trigger] input@[j])) ==> r is Ok
            && r->Ok_0 is Nil,
        match crate::parse::pprogram(input@, 0) {
            crate::parse::ParsedAll::Failed => r is Err && r->Err_0.kind == ErrorKind::Parse
                && final(env).frames@ == old(env).frames@,
            crate::parse::ParsedAll::Done(forms, _) => exists|fs: Seq<Value>|
                #[trigger] crate::parse::erases(fs) == forms && agrees(
                    sem_forms(fm(old(env).frames@), 0, fs, fs.len() as int, MAX_DEPTH as nat),
                    final(env).frames@,
                    r,
                ),
            crate::parse::ParsedAll::Open => true,
        },
{
    let forms = parse_program(input, &*host)?;
    run_forms(env, 0, &forms, host, MAX_DEPTH)
}

/// The value of argument `i` of the call `list`, evaluated in `frame`.
fn arg_value<H: Host>(
    env: &mut Env,
    frame: usize,
    list: &Vec<Expression>,
    i: usize,
    host: &mut H,
    depth: u64,
) -> (r: Result<Expression, EvalError>)
    requires
        old(env).wf(),
        frame < old(env).frames@.len(),
        i < list@.len(),
    ensures
        settled(*old(env), *final(env), frame),
        !(list@[i as int] is List) && !(list@[i as int] is Symbol) ==> r is Ok && r->Ok_0.model()
            == list@[i as int].model(),
        agrees(sem_eval(fm(old(env).frames@), frame as int, list@[i as int].model(), depth as nat), final(env).frames@, r),
    decreases depth, 1int,
{
    eval_in(env, frame, &list[i], host, depth)
}

/// The list that argument `i` evaluates to; an error where it is not one.
fn arg_list<H: Host>(
    env: &mut Env,
    frame: usize,
    list: &Vec<Expression>,
    i: usize,
    host: &mut H,
    depth: u64,
) -> (r: Result<Vec<Expression>, EvalError>)
    requires
        old(env).wf(),
        frame < old(env).frames@.len(),
        i < list@.len(),
    ensures
        settled(*old(env), *final(env), frame),
        r is Ok && !(list@[i as int] is List) && !(list@[i as int] is Symbol) ==> list@[i as int].model()
            == Value::List(models(r->Ok_0@)),
    decreases depth, 1int,
{
    let v = eval_in(env, frame, &list[i], host, depth)?;
    v.as_list()
}

/// A frame's bindings holding `name` bound to `value`, besides the
/// reserved tables.
fn bind_one(name: &String, value: &Expression) -> (r: Bindings)
    ensures
        bindings_of(r) == crate::env::seeded().insert(name@, value.model()),
{
    let mut b = seeded_bindings();
    b.insert(name.clone(), value.clone());
    b
}

/// The builtin `p` applied to the call `list`.
#[verifier::rlimit(100)]
#[verifier::spinoff_prover]
fn call_builtin<H: Host>(
    env: &mut Env,
    frame: usize,
    p: Prim,
    list: &Vec<Expression>,
    host: &mut H,
    depth: u64,
) -> (r: Result<Expression, EvalError>)
    requires
        old(env).wf(),
        frame < old(env).frames@.len(),
        list@.len() > 0,
    ensures
        settled(*old(env), *final(env), frame),
        builtin_result(p, list@, r),
        p == Prim::Define && r is Ok ==> define_effect(list@, old(env).frames@, final(env).frames@, frame as int),
        p == Prim::Import && r is Ok ==> exists|text: Seq<char>, forms: Seq<Value>, t: Map<Seq<char>, Value>|
            #[trigger] import_effect(fm(old(env).frames@), fm(final(env).frames@), frame as int, depth as nat, text, forms, t),
        crate::sem::covered(p) ==> agrees(
            sem_builtin(fm(old(env).frames@), frame as int, p, models(list@), depth as nat),
            final(env).frames@,
            r,
        ),
    decreases depth, 4int,
{
    match p {
        Prim::Plus | Prim::Minus | Prim::Multiply | Prim::Divide => b_arith(env, frame, p, list, host, depth),
        Prim::Mod => b_mod(env, frame, p, list, host, depth),
        Prim::Equal => b_equal(env, frame, p, list, host, depth),
        Prim::Greater | Prim::GreaterEqual | Prim::Less | Prim::LessEqual => b_compare(env, frame, p, list, host, depth),
        Prim::And => b_and_or(env, frame, list, host, depth, true),
        Prim::Or => b_and_or(env, frame, list, host, depth, false),
        Prim::Module => b_module(env, frame, p, list, host, depth),
        Prim::Function => b_function_form(env, frame, p, list, host, depth),
        Prim::If => b_if(env, frame, list, host, depth),
        Prim::Define => b_define(env, frame, list, host, depth),
        Prim::Let => b_let(env, frame, list, host, depth),
        Prim::LetMany => b_let_many(env, frame, list, host, depth),
        Prim::Eval => b_eval(env, frame, list, host, depth),
        Prim::EvalLog => b_eval_log(env, frame, list, host, depth),
        Prim::Lazy => b_quote(env, frame, p, list, host, depth),
        Prim::Time => b_time(env, frame, list, host, depth),
        Prim::Concat => b_concat(env, frame, p, list, host, depth),
        Prim::Range => b_range(env, frame, p, list, host, depth),
        Prim::For => b_for(env, frame, list, host, depth),
        Prim::ForI => b_for_i(env, frame, list, host, depth),
        Prim::MapList => b_map(env, frame, list, host, depth),
        Prim::Fold => b_fold(env, frame, list, host, depth),
        Prim::Filter => b_filter(env, frame, list, host, depth),
        Prim::Print => b_show(env, frame, p, list, host, depth),
        Prim::Round => {
            arity(list, 1)?;
            let f = arg_value(env, frame, list, 1, host, depth)?.as_f64()?;
            Ok(Expression::Float(host.float_round(f)))
        },
        Prim::WebServer => b_web_server(env, frame, list, host, depth),
        Prim::ToStr => b_show(env, frame, p, list, host, depth),
        Prim::ToSymbol => b_show(env, frame, p, list, host, depth),
        Prim::AndThen => b_and_then(env, frame, p, list, host, depth),
        Prim::Exists => b_exists(env, frame, p, list, host, depth),
        Prim::ConcatSymbol => b_concat_symbol(env, frame, p, list, host, depth),
        Prim::Append => b_append(env, frame, p, list, host, depth),
        Prim::Prepend => b_prepend(env, frame, p, list, host, depth),
        Prim::Index => b_index(env, frame, p, list, host, depth),
        Prim::Slice => b_slice(env, frame, p, list, host, depth),
        Prim::Reverse => b_reverse(env, frame, p, list, host, depth),
        Prim::Length => b_length(env, frame, p, list, host, depth),
        Prim::Tangle => b_tangle(env, frame, p, list, host, depth),
        Prim::TypeOf => b_type(env, frame, p, list, host, depth),
        Prim::Split => b_split(env, frame, p, list, host, depth),
        Prim::Read => {
            arity(list, 1)?;
            let path = arg_value(env, frame, list, 1, host, depth)?.as_string()?;
            match host.read_file(path.as_str()) {
                Some(content) => Ok(Expression::String(content)),
                None => Err(EvalError::new(ErrorKind::Io, "the file cannot be read")),
            }
        },
        Prim::Write => {
            arity(list, 2)?;
            let path = arg_value(env, frame, list, 1, host, depth)?.as_string()?;
            let content = arg_value(env, frame, list, 2, host, depth)?.as_string()?;
            Ok(Expression::from_bool(host.write_file(path.as_str(), content.as_str())))
        },
        Prim::Zip => b_zip(env, frame, p, list, host, depth),
        Prim::ZipWith => b_zip_with(env, frame, list, host, depth),
        Prim::Import => b_import(env, frame, list, host, depth),
        Prim::Export => b_export(env, frame, list, host, depth),
        Prim::Quote => b_quote(env, frame, p, list, host, depth),
        Prim::EnvValues => {
            arity(list, 0)?;
            let entries = env.frames[frame].local.entries();
            let mut out: Vec<Expression> = Vec::new();
            let mut i: usize = 0;
            while i < entries.len()
                invariant
                    i <= entries@.len(),
                decreases entries@.len() - i,
            {
                out.push(entries[i].1.clone());
                i = i + 1;
            }
            Ok(Expression::List(out))
        },
        Prim::Apply => b_apply(env, frame, p, list, host, depth),
    }
}

/// `+ - * /` on the values of the arguments.
fn b_arith<H: Host>(
    env: &mut Env,
    frame: usize,
    p: Prim,
    list: &Vec<Expression>,
    host: &mut H,
    depth: u64,
) -> (r: Result<Expression, EvalError>)
    requires
        old(env).wf(),
        frame < old(env).frames@.len(),
        list@.len() > 0,
        arith_op_of(p) is Some,
    ensures
        settled(*old(env), *final(env), frame),
        builtin_result(p, list@, r),
        agrees(sem_builtin(fm(old(env).frames@), frame as int, p, models(list@), depth as nat), final(env).frames@, r),
    decreases depth, 3int,
{
    proof {
        lemma_models(list@);
    }
    let ghost ms0 = fm(env.frames@);
    let v = eval_args(env, frame, list, host, depth)?;
    let op = match p {
        Prim::Plus => ArithOp::Add,
        Prim::Minus => ArithOp::Sub,
        Prim::Multiply => ArithOp::Mul,
        _ => ArithOp::Div,
    };
    assert(op == arith_op_of(p)->0);
    assert(crate::sem::arith_op_of(p) == arith_op_of(p));
    let r = arith(&*host, op, &v);
    assert(evaluated_from(models(v@), list@));
    r
}

/// `> >= < <=` on the values of the arguments.
fn b_compare<H: Host>(
    env: &mut Env,
    frame: usize,
    p: Prim,
    list: &Vec<Expression>,
    host: &mut H,
    depth: u64,
) -> (r: Result<Expression, EvalError>)
    requires
        old(env).wf(),
        frame < old(env).frames@.len(),
        list@.len() > 0,
        crate::sem::cmp_op_of(p) is Some,
    ensures
        settled(*old(env), *final(env), frame),
        builtin_result(p, list@, r),
        agrees(sem_builtin(fm(old(env).frames@), frame as int, p, models(list@), depth as nat), final(env).frames@, r),
    decreases depth, 3int,
{
    proof {
        lemma_models(list@);
    }
    let v = eval_args(env, frame, list, host, depth)?;
    let op = match p {
        Prim::Greater => CmpOp::Greater,
        Prim::GreaterEqual => CmpOp::GreaterEqual,
        Prim::Less => CmpOp::Less,
        _ => CmpOp::LessEqual,
    };
    assert(op == crate::sem::cmp_op_of(p)->0);
    compare(&*host, op, &v)
}

/// `=` on the values of the arguments.
fn b_equal<H: Host>(
    env: &mut Env,
    frame: usize,
    p: Prim,
    list: &Vec<Expression>,
    host: &mut H,
    depth: u64,
) -> (r: Result<Expression, EvalError>)
    requires
        old(env).wf(),
        frame < old(env).frames@.len(),
        list@.len() > 0,
        p == Prim::Equal,
    ensures
        settled(*old(env), *final(env), frame),
        builtin_result(p, list@, r),
        agrees(sem_builtin(fm(old(env).frames@), frame as int, p, models(list@), depth as nat), final(env).frames@, r),
    decreases depth, 3int,
{
    proof {
        lemma_models(list@);
    }
    let v = eval_args(env, frame, list, host, depth)?;
    all_equal(&v)
}

/// `(and-then a ...)`: each argument in turn; the value of the last.
fn b_and_then<H: Host>(
    env: &mut Env,
    frame: usize,
    p: Prim,
    list: &Vec<Expression>,
    host: &mut H,
    depth: u64,
) -> (r: Result<Expression, EvalError>)
    requires
        old(env).wf(),
        frame < old(env).frames@.len(),
        list@.len() > 0,
        p == Prim::AndThen,
    ensures
        settled(*old(env), *final(env), frame),
        builtin_result(p, list@, r),
        agrees(sem_builtin(fm(old(env).frames@), frame as int, p, models(list@), depth as nat), final(env).frames@, r),
    decreases depth, 3int,
{
    proof {
        lemma_models(list@);
    }
    if list.len() < 2 {
        return Err(arity_error());
    }
    let v = eval_args(env, frame, list, host, depth)?;
    proof {
        lemma_models(v@);
    }
    Ok(v[v.len() - 1].clone())
}

/// `quote` and `lazy`: the one argument, as it stands.
fn b_quote<H: Host>(
    env: &mut Env,
    frame: usize,
    p: Prim,
    list: &Vec<Expression>,
    host: &mut H,
    depth: u64,
) -> (r: Result<Expression, EvalError>)
    requires
        old(env).wf(),
        frame < old(env).frames@.len(),
        list@.len() > 0,
        p == Prim::Quote || p == Prim::Lazy,
    ensures
        settled(*old(env), *final(env), frame),
        builtin_result(p, list@, r),
        agrees(sem_builtin(fm(old(env).frames@), frame as int, p, models(list@), depth as nat), final(env).frames@, r),
    decreases depth, 3int,
{
    proof {
        lemma_models(list@);
    }
    arity(list, 1)?;
    Ok(list[1].clone())
}

/// `(function (params...) body)`.
fn b_function_form<H: Host>(
    env: &mut Env,
    frame: usize,
    p: Prim,
    list: &Vec<Expression>,
    host: &mut H,
    depth: u64,
) -> (r: Result<Expression, EvalError>)
    requires
        old(env).wf(),
        frame < old(env).frames@.len(),
        list@.len() > 0,
        p == Prim::Function,
    ensures
        settled(*old(env), *final(env), frame),
        builtin_result(p, list@, r),
        agrees(sem_builtin(fm(old(env).frames@), frame as int, p, models(list@), depth as nat), final(env).frames@, r),
    decreases depth, 3int,
{
    proof {
        lemma_models(list@);
        if list@.len() == 3 && list@[1] is List {
            let ps = list@[1]->List_0@;
            lemma_models(ps);
            assert forall|j: int| 0 <= j < ps.len() implies (#[trigger] models(ps)[j] is Symbol <==> ps[j] is Symbol) by {
                assert(models(ps)[j] == ps[j].model());
            }
            if crate::sem::all_symbols(models(ps)) {
                assert forall|j: int| 0 <= j < ps.len() implies #[trigger] ps[j] is Symbol by {
                    assert(models(ps)[j] is Symbol);
                }
            }
            if forall|j: int| 0 <= j < ps.len() ==> #[trigger] ps[j] is Symbol {
                assert forall|j: int| 0 <= j < models(ps).len() implies #[trigger] models(ps)[j] is Symbol by {
                    assert(ps[j] is Symbol);
                }
            }
        }
    }
    b_function(list)
}

/// `(split by text)`: the pieces of `text` between the occurrences of `by`.
fn b_split<H: Host>(
    env: &mut Env,
    frame: usize,
    p: Prim,
    list: &Vec<Expression>,
    host: &mut H,
    depth: u64,
) -> (r: Result<Expression, EvalError>)
    requires
        old(env).wf(),
        frame < old(env).frames@.len(),
        list@.len() > 0,
        p == Prim::Split,
    ensures
        settled(*old(env), *final(env), frame),
        agrees(sem_builtin(fm(old(env).frames@), frame as int, p, models(list@), depth as nat), final(env).frames@, r),
    decreases depth, 3int,
{
    proof {
        lemma_models(list@);
    }
    arity(list, 2)?;
    let by = arg_value(env, frame, list, 1, host, depth)?.as_string()?;
    let text = arg_value(env, frame, list, 2, host, depth)?.as_string()?;
    let pieces = split_text(text.as_str(), by.as_str());
    let ghost sp = crate::text::split_of(text@, by@);
    let mut out: Vec<Expression> = Vec::new();
    let mut i: usize = 0;
    while i < pieces.len()
        invariant
            i <= pieces@.len(),
            pieces@.len() == sp.len(),
            forall|j: int| 0 <= j < pieces@.len() ==> #[trigger] pieces@[j]@ == sp[j],
            out@.len() == i,
            forall|j: int| 0 <= j < i ==> #[trigger] out@[j].model() == Value::Str(sp[j]),
        decreases pieces@.len() - i,
    {
        out.push(Expression::String(pieces[i].clone()));
        i = i + 1;
    }
    proof {
        lemma_models(out@);
        assert(models(out@) =~= crate::sem::split_value(text@, by@)->List_0);
    }
    Ok(Expression::List(out))
}

/// `(range a b)`: the integers from `a` up to `b`.
fn b_range<H: Host>(
    env: &mut Env,
    frame: usize,
    p: Prim,
    list: &Vec<Expression>,
    host: &mut H,
    depth: u64,
) -> (r: Result<Expression, EvalError>)
    requires
        old(env).wf(),
        frame < old(env).frames@.len(),
        list@.len() > 0,
        p == Prim::Range,
    ensures
        settled(*old(env), *final(env), frame),
        agrees(sem_builtin(fm(old(env).frames@), frame as int, p, models(list@), depth as nat), final(env).frames@, r),
    decreases depth, 3int,
{
    proof {
        lemma_models(list@);
    }
    arity(list, 2)?;
    let a = arg_value(env, frame, list, 1, host, depth)?;
    let b = arg_value(env, frame, list, 2, host, depth)?;
    let x = a.as_i64()?;
    let y = b.as_i64()?;
    let out = range(x, y);
    proof {
        lemma_models(out@);
        assert(models(out@) =~= crate::sem::range_values(x, y));
    }
    Ok(Expression::List(out))
}

/// `(reverse items)`.
fn b_reverse<H: Host>(
    env: &mut Env,
    frame: usize,
    p: Prim,
    list: &Vec<Expression>,
    host: &mut H,
    depth: u64,
) -> (r: Result<Expression, EvalError>)
    requires
        old(env).wf(),
        frame < old(env).frames@.len(),
        list@.len() > 0,
        p == Prim::Reverse,
    ensures
        settled(*old(env), *final(env), frame),
        agrees(sem_builtin(fm(old(env).frames@), frame as int, p, models(list@), depth as nat), final(env).frames@, r),
    decreases depth, 3int,
{
    proof {
        lemma_models(list@);
    }
    arity(list, 1)?;
    let a = arg_value(env, frame, list, 1, host, depth)?;
    let xs = a.as_list()?;
    Ok(Expression::List(reverse(&xs)))
}

/// `(append items x)`: `items` with `x` at the end.
fn b_append<H: Host>(
    env: &mut Env,
    frame: usize,
    p: Prim,
    list: &Vec<Expression>,
    host: &mut H,
    depth: u64,
) -> (r: Result<Expression, EvalError>)
    requires
        old(env).wf(),
        frame < old(env).frames@.len(),
        list@.len() > 0,
        p == Prim::Append,
    ensures
        settled(*old(env), *final(env), frame),
        agrees(sem_builtin(fm(old(env).frames@), frame as int, p, models(list@), depth as nat), final(env).frames@, r),
    decreases depth, 3int,
{
    proof {
        lemma_models(list@);
    }
    arity(list, 2)?;
    let a = arg_value(env, frame, list, 1, host, depth)?;
    let b = arg_value(env, frame, list, 2, host, depth)?;
    let xs = a.as_list()?;
    Ok(Expression::List(append(&xs, &b)))
}

/// `(prepend items x)`: `items` with `x` at the front.
fn b_prepend<H: Host>(
    env: &mut Env,
    frame: usize,
    p: Prim,
    list: &Vec<Expression>,
    host: &mut H,
    depth: u64,
) -> (r: Result<Expression, EvalError>)
    requires
        old(env).wf(),
        frame < old(env).frames@.len(),
        list@.len() > 0,
        p == Prim::Prepend,
    ensures
        settled(*old(env), *final(env), frame),
        agrees(sem_builtin(fm(old(env).frames@), frame as int, p, models(list@), depth as nat), final(env).frames@, r),
    decreases depth, 3int,
{
    proof {
        lemma_models(list@);
    }
    arity(list, 2)?;
    let a = arg_value(env, frame, list, 1, host, depth)?;
    let b = arg_value(env, frame, list, 2, host, depth)?;
    let xs = a.as_list()?;
    Ok(Expression::List(prepend(&xs, &b)))
}

/// `(type x)`: the name of the variant of `x`.
fn b_type<H: Host>(
    env: &mut Env,
    frame: usize,
    p: Prim,
    list: &Vec<Expression>,
    host: &mut H,
    depth: u64,
) -> (r: Result<Expression, EvalError>)
    requires
        old(env).wf(),
        frame < old(env).frames@.len(),
        list@.len() > 0,
        p == Prim::TypeOf,
    ensures
        settled(*old(env), *final(env), frame),
        agrees(sem_builtin(fm(old(env).frames@), frame as int, p, models(list@), depth as nat), final(env).frames@, r),
    decreases depth, 3int,
{
    proof {
        lemma_models(list@);
    }
    arity(list, 1)?;
    let a = arg_value(env, frame, list, 1, host, depth)?;
    Ok(Expression::String(a.as_type_string()))
}

/// `(length x)`: the number of elements of a list or characters of a string.
fn b_length<H: Host>(
    env: &mut Env,
    frame: usize,
    p: Prim,
    list: &Vec<Expression>,
    host: &mut H,
    depth: u64,
) -> (r: Result<Expression, EvalError>)
    requires
        old(env).wf(),
        frame < old(env).frames@.len(),
        list@.len() > 0,
        p == Prim::Length,
    ensures
        settled(*old(env), *final(env), frame),
        agrees(sem_builtin(fm(old(env).frames@), frame as int, p, models(list@), depth as nat), final(env).frames@, r),
    decreases depth, 3int,
{
    proof {
        lemma_models(list@);
    }
    arity(list, 1)?;
    let a = arg_value(env, frame, list, 1, host, depth)?;
    let n = match &a {
        Expression::List(l) => l.len(),
        Expression::String(t) => t.as_str().unicode_len(),
        _ => {
            return Err(type_error("has no length"));
        },
    };
    proof {
        if let Expression::List(l) = &a {
            lemma_models(l@);
        }
    }
    if n as u64 > i64::MAX as u64 {
        return Err(limit_error());
    }
    Ok(Expression::Integer(n as i64))
}

/// `(exists name)`: whether the symbol `name` resolves here.
fn b_exists<H: Host>(
    env: &mut Env,
    frame: usize,
    p: Prim,
    list: &Vec<Expression>,
    host: &mut H,
    depth: u64,
) -> (r: Result<Expression, EvalError>)
    requires
        old(env).wf(),
        frame < old(env).frames@.len(),
        list@.len() > 0,
        p == Prim::Exists,
    ensures
        settled(*old(env), *final(env), frame),
        agrees(sem_builtin(fm(old(env).frames@), frame as int, p, models(list@), depth as nat), final(env).frames@, r),
    decreases depth, 3int,
{
    proof {
        lemma_models(list@);
    }
    arity(list, 1)?;
    let a = arg_value(env, frame, list, 1, host, depth)?;
    let name = a.as_symbol_string()?;
    proof {
        crate::sem::lemma_fm_lookup(env.frames@, frame as int, name@);
    }
    Ok(Expression::from_bool(env.get(frame, name.as_str()).is_some()))
}

/// `(zip a b)`: pairs of elements at the same index.
fn b_zip<H: Host>(
    env: &mut Env,
    frame: usize,
    p: Prim,
    list: &Vec<Expression>,
    host: &mut H,
    depth: u64,
) -> (r: Result<Expression, EvalError>)
    requires
        old(env).wf(),
        frame < old(env).frames@.len(),
        list@.len() > 0,
        p == Prim::Zip,
    ensures
        settled(*old(env), *final(env), frame),
        agrees(sem_builtin(fm(old(env).frames@), frame as int, p, models(list@), depth as nat), final(env).frames@, r),
    decreases depth, 3int,
{
    proof {
        lemma_models(list@);
    }
    arity(list, 2)?;
    let a = arg_value(env, frame, list, 1, host, depth)?;
    let b = arg_value(env, frame, list, 2, host, depth)?;
    let xs = a.as_list()?;
    let ys = b.as_list()?;
    let out = zip(&xs, &ys);
    proof {
        lemma_models(out@);
        lemma_models(xs@);
        lemma_models(ys@);
        assert(models(out@) =~= crate::sem::zip_values(models(xs@), models(ys@)));
    }
    Ok(Expression::List(out))
}

/// `(apply f args)`: `f` called on the values of the list `args`.
fn b_apply<H: Host>(
    env: &mut Env,
    frame: usize,
    p: Prim,
    list: &Vec<Expression>,
    host: &mut H,
    depth: u64,
) -> (r: Result<Expression, EvalError>)
    requires
        old(env).wf(),
        frame < old(env).frames@.len(),
        list@.len() > 0,
        p == Prim::Apply,
    ensures
        settled(*old(env), *final(env), frame),
        agrees(sem_builtin(fm(old(env).frames@), frame as int, p, models(list@), depth as nat), final(env).frames@, r),
    decreases depth, 3int,
{
    proof {
        lemma_models(list@);
    }
    arity(list, 2)?;
    let a = arg_value(env, frame, list, 1, host, depth)?;
    let b = arg_value(env, frame, list, 2, host, depth)?;
    let args = b.as_list()?;
    if depth == 0 {
        return Err(limit_error());
    }
    apply_values(env, frame, &a, args, host, depth - 1)
}

/// `(concat s...)`: the strings joined.
fn b_concat<H: Host>(
    env: &mut Env,
    frame: usize,
    p: Prim,
    list: &Vec<Expression>,
    host: &mut H,
    depth: u64,
) -> (r: Result<Expression, EvalError>)
    requires
        old(env).wf(),
        frame < old(env).frames@.len(),
        list@.len() > 0,
        p == Prim::Concat,
    ensures
        settled(*old(env), *final(env), frame),
        agrees(sem_builtin(fm(old(env).frames@), frame as int, p, models(list@), depth as nat), final(env).frames@, r),
    decreases depth, 3int,
{
    proof {
        lemma_models(list@);
    }
    let v = eval_args(env, frame, list, host, depth)?;
    assert(models(v@).skip(0) =~= models(v@));
    let t = join_texts(&v, 0, false)?;
    Ok(Expression::String(t))
}

/// `(% a b)`: the remainder of `a` by `b`.
fn b_mod<H: Host>(
    env: &mut Env,
    frame: usize,
    p: Prim,
    list: &Vec<Expression>,
    host: &mut H,
    depth: u64,
) -> (r: Result<Expression, EvalError>)
    requires
        old(env).wf(),
        frame < old(env).frames@.len(),
        list@.len() > 0,
        p == Prim::Mod,
    ensures
        settled(*old(env), *final(env), frame),
        agrees(sem_builtin(fm(old(env).frames@), frame as int, p, models(list@), depth as nat), final(env).frames@, r),
    decreases depth, 3int,
{
    proof {
        lemma_models(list@);
    }
    arity(list, 2)?;
    let v = eval_args(env, frame, list, host, depth)?;
    proof {
        lemma_models(v@);
    }
    modulo(&*host, &v[0], &v[1])
}

/// `(module)`: a table of this frame's import and export tables.
fn b_module<H: Host>(
    env: &mut Env,
    frame: usize,
    p: Prim,
    list: &Vec<Expression>,
    host: &mut H,
    depth: u64,
) -> (r: Result<Expression, EvalError>)
    requires
        old(env).wf(),
        frame < old(env).frames@.len(),
        list@.len() > 0,
        p == Prim::Module,
    ensures
        settled(*old(env), *final(env), frame),
        agrees(sem_builtin(fm(old(env).frames@), frame as int, p, models(list@), depth as nat), final(env).frames@, r),
    decreases depth, 3int,
{
    proof {
        lemma_models(list@);
    }
    arity(list, 0)?;
    proof {
        lemma_fm_resolve(env.frames@, frame as int, "__IMPORTED"@);
        lemma_fm_resolve(env.frames@, frame as int, "__EXPORTED"@);
    }
    let imported = match env.get(frame, "__IMPORTED") {
        Some(v) => v,
        None => Expression::Nil,
    };
    let exported = match env.get(frame, "__EXPORTED") {
        Some(v) => v,
        None => Expression::Nil,
    };
    let mut t = Bindings::new();
    t.insert(String::from_str("imported"), imported);
    t.insert(String::from_str("exported"), exported);
    Ok(Expression::Table(t))
}

/// `print`, `to-string`, `to-symbol`: the written form of the one argument, printed (giving nil) or made a string or a symbol.
fn b_show<H: Host>(
    env: &mut Env,
    frame: usize,
    p: Prim,
    list: &Vec<Expression>,
    host: &mut H,
    depth: u64,
) -> (r: Result<Expression, EvalError>)
    requires
        old(env).wf(),
        frame < old(env).frames@.len(),
        list@.len() > 0,
        p == Prim::Print || p == Prim::ToStr || p == Prim::ToSymbol,
    ensures
        settled(*old(env), *final(env), frame),
        agrees(sem_builtin(fm(old(env).frames@), frame as int, p, models(list@), depth as nat), final(env).frames@, r),
    decreases depth, 3int,
{
    proof {
        lemma_models(list@);
    }
    arity(list, 1)?;
    let a = arg_value(env, frame, list, 1, host, depth)?;
    let text = a.as_display_string(&*host);
    match p {
        Prim::Print => {
            host.print(text.as_str());
            Ok(Expression::Nil)
        },
        Prim::ToStr => Ok(Expression::String(text)),
        _ => Ok(Expression::Symbol(text)),
    }
}

/// `(concat-symbol a b ...)`: the symbols, as written, joined into one.
fn b_concat_symbol<H: Host>(
    env: &mut Env,
    frame: usize,
    p: Prim,
    list: &Vec<Expression>,
    host: &mut H,
    depth: u64,
) -> (r: Result<Expression, EvalError>)
    requires
        old(env).wf(),
        frame < old(env).frames@.len(),
        list@.len() > 0,
        p == Prim::ConcatSymbol,
    ensures
        settled(*old(env), *final(env), frame),
        agrees(sem_builtin(fm(old(env).frames@), frame as int, p, models(list@), depth as nat), final(env).frames@, r),
    decreases depth, 3int,
{
    proof {
        lemma_models(list@);
    }
    let t = join_texts(list, 1, true)?;
    Ok(Expression::Symbol(t))
}

/// `(tangle with items)`: `with` between each two neighbouring elements.
fn b_tangle<H: Host>(
    env: &mut Env,
    frame: usize,
    p: Prim,
    list: &Vec<Expression>,
    host: &mut H,
    depth: u64,
) -> (r: Result<Expression, EvalError>)
    requires
        old(env).wf(),
        frame < old(env).frames@.len(),
        list@.len() > 0,
        p == Prim::Tangle,
    ensures
        settled(*old(env), *final(env), frame),
        agrees(sem_builtin(fm(old(env).frames@), frame as int, p, models(list@), depth as nat), final(env).frames@, r),
    decreases depth, 3int,
{
    proof {
        lemma_models(list@);
    }
    arity(list, 2)?;
    let with = arg_value(env, frame, list, 1, host, depth)?;
    let lv = arg_value(env, frame, list, 2, host, depth)?;
    let xs = lv.as_list()?;
    Ok(Expression::List(tangle(&with, &xs)))
}

/// `(index i items)`: the element at `i`.
fn b_index<H: Host>(
    env: &mut Env,
    frame: usize,
    p: Prim,
    list: &Vec<Expression>,
    host: &mut H,
    depth: u64,
) -> (r: Result<Expression, EvalError>)
    requires
        old(env).wf(),
        frame < old(env).frames@.len(),
        list@.len() > 0,
        p == Prim::Index,
    ensures
        settled(*old(env), *final(env), frame),
        builtin_result(p, list@, r),
        agrees(sem_builtin(fm(old(env).frames@), frame as int, p, models(list@), depth as nat), final(env).frames@, r),
    decreases depth, 3int,
{
    proof {
        lemma_models(list@);
    }
    arity(list, 2)?;
    let i = arg_value(env, frame, list, 1, host, depth)?.as_i64()?;
    let xv = arg_value(env, frame, list, 2, host, depth)?;
    let xs = xv.as_list()?;
    proof {
        lemma_models(xs@);
    }
    index(i, &xs)
}

/// `(slice start len items)`: `len` elements from `start`.
fn b_slice<H: Host>(
    env: &mut Env,
    frame: usize,
    p: Prim,
    list: &Vec<Expression>,
    host: &mut H,
    depth: u64,
) -> (r: Result<Expression, EvalError>)
    requires
        old(env).wf(),
        frame < old(env).frames@.len(),
        list@.len() > 0,
        p == Prim::Slice,
    ensures
        settled(*old(env), *final(env), frame),
        builtin_result(p, list@, r),
        agrees(sem_builtin(fm(old(env).frames@), frame as int, p, models(list@), depth as nat), final(env).frames@, r),
    decreases depth, 3int,
{
    proof {
        lemma_models(list@);
    }
    arity(list, 3)?;
    let a = arg_value(env, frame, list, 1, host, depth)?;
    let start = a.as_i64()?;
    let b = arg_value(env, frame, list, 2, host, depth)?;
    let len = b.as_i64()?;
    let xv = arg_value(env, frame, list, 3, host, depth)?;
    let xs = xv.as_list()?;
    let part = slice(start, len, &xs)?;
    let ghost vs = seq![a.model(), b.model(), Value::List(models(xs@))];
    let r = Expression::List(part);
    assert(evaluated_from(vs, list@));
    assert(slice_outcome(vs, r.model()));
    Ok(r)
}

/// `and` and `or`: the arguments are evaluated left to right until one
/// decides the answer (nil for `and`, anything else for `or`).
fn b_and_or<H: Host>(
    env: &mut Env,
    frame: usize,
    list: &Vec<Expression>,
    host: &mut H,
    depth: u64,
    is_and: bool,
) -> (r: Result<Expression, EvalError>)
    requires
        old(env).wf(),
        frame < old(env).frames@.len(),
        list@.len() > 0,
    ensures
        settled(*old(env), *final(env), frame),
        r is Ok ==> crate::ops::is_bool_value(r->Ok_0.model()),
        agrees(
            sem_builtin(
                fm(old(env).frames@),
                frame as int,
                if is_and {
                    Prim::And
                } else {
                    Prim::Or
                },
                models(list@),
                depth as nat,
            ),
            final(env).frames@,
            r,
        ),
    decreases depth, 3int,
{
    proof {
        lemma_models(list@);
    }
    if list.len() < 2 {
        return Err(arity_error());
    }
    let ghost f0 = env.frames@;
    let ghost items = models(list@);
    let mut i: usize = 1;
    while i < list.len()
        invariant
            1 <= i <= list@.len(),
            env.wf(),
            frame < env.frames@.len(),
            confined(old(env).frames@, env.frames@, frame as int),
            items == models(list@),
            forall|j: int| 0 <= j < list@.len() ==> #[trigger] items[j] == list@[j].model(),
            crate::sem::sem_andor(fm(old(env).frames@), frame as int, items, is_and, 1, depth as nat)
                == crate::sem::sem_andor(fm(env.frames@), frame as int, items, is_and, i as int, depth as nat)
                || crate::sem::sem_andor(fm(old(env).frames@), frame as int, items, is_and, 1, depth as nat) is Open,
        decreases list@.len() - i,
    {
        let v = eval_in(env, frame, &list[i], host, depth)?;
        let t = !matches!(v, Expression::Nil);
        if t != is_and {
            return Ok(Expression::from_bool(t));
        }
        i = i + 1;
    }
    Ok(Expression::from_bool(is_and))
}

/// `(function (params...) body)`: a function value; neither part is
/// evaluated, and each parameter must be a symbol.
fn b_function(list: &Vec<Expression>) -> (r: Result<Expression, EvalError>)
    ensures
        r is Ok ==> (list@.len() == 3 && list@[1] is List && r->Ok_0.model() == Value::Function {
            params: models(list@[1]->List_0@),
            body: Box::new(list@[2].model()),
        }),
        r is Ok <==> (list@.len() == 3 && list@[1] is List && forall|j: int|
            0 <= j < list@[1]->List_0@.len() ==> #[trigger] list@[1]->List_0@[j] is Symbol),
        r is Err ==> r->Err_0.kind == if list@.len() != 3 {
            ErrorKind::Arity
        } else {
            ErrorKind::Type
        },
{
    arity(list, 2)?;
    match &list[1] {
        Expression::List(params) => {
            let mut i: usize = 0;
            while i < params.len()
                invariant
                    i <= params@.len(),
                    list@.len() == 3,
                    list@[1] is List,
                    list@[1]->List_0@ == params@,
                    forall|j: int| 0 <= j < i ==> #[trigger] params@[j] is Symbol,
                decreases params@.len() - i,
            {
                if !matches!(params[i], Expression::Symbol(_)) {
                    assert(!(list@[1]->List_0@[i as int] is Symbol));
                    return Err(type_error("a parameter is not a symbol"));
                }
                i = i + 1;
            }
            let args = copy_list(params);
            let body = list[2].clone();
            let r = Expression::Function { arguments: args, body: Box::new(body) };
            Ok(r)
        },
        _ => Err(type_error("the parameters are not a list")),
    }
}

/// `(if c then else?)`: `then` where `c` is not nil, else `else` (or nil).
fn b_if<H: Host>(
    env: &mut Env,
    frame: usize,
    list: &Vec<Expression>,
    host: &mut H,
    depth: u64,
) -> (r: Result<Expression, EvalError>)
    requires
        old(env).wf(),
        frame < old(env).frames@.len(),
        list@.len() > 0,
    ensures
        settled(*old(env), *final(env), frame),
        agrees(sem_builtin(fm(old(env).frames@), frame as int, Prim::If, models(list@), depth as nat), final(env).frames@, r),
    decreases depth, 3int,
{
    proof {
        lemma_models(list@);
    }
    if list.len() < 3 || list.len() > 4 {
        return Err(arity_error());
    }
    let c = eval_in(env, frame, &list[1], host, depth)?;
    if !matches!(c, Expression::Nil) {
        eval_in(env, frame, &list[2], host, depth)
    } else if list.len() == 4 {
        eval_in(env, frame, &list[3], host, depth)
    } else {
        Ok(Expression::Nil)
    }
}

/// `(define name value)`: binds `name` in the outermost frame.
fn b_define<H: Host>(
    env: &mut Env,
    frame: usize,
    list: &Vec<Expression>,
    host: &mut H,
    depth: u64,
) -> (r: Result<Expression, EvalError>)
    requires
        old(env).wf(),
        frame < old(env).frames@.len(),
        list@.len() > 0,
    ensures
        settled(*old(env), *final(env), frame),
        r is Ok ==> r->Ok_0 is Nil,
        r is Ok ==> define_effect(list@, old(env).frames@, final(env).frames@, frame as int),
        agrees(sem_builtin(fm(old(env).frames@), frame as int, Prim::Define, models(list@), depth as nat), final(env).frames@, r),
    decreases depth, 3int,
{
    proof {
        lemma_models(list@);
    }
    arity(list, 2)?;
    let name = list[1].as_symbol_string()?;
    let v = eval_in(env, frame, &list[2], host, depth)?;
    let ghost a = env.frames@;
    let ghost vm = v.model();
    let ghost nm = name@;
    env.set_global(frame, name, v);
    proof {
        lemma_global_confined(a, env.frames@, frame as int);
        crate::env::lemma_root_same_parents(old(env).frames@, a, frame as int);
        crate::sem::lemma_fm_lookup(a, frame as int, name@);
        crate::env::lemma_root_in_range(a, frame as int);
        lemma_fm_bind(a, env.frames@, root_of(a, frame as int), nm, vm);
    }
    Ok(Expression::Nil)
}

/// `(let name value body)`: `body` evaluated in a new frame where `name` is
/// bound; the binding is gone afterwards.
fn b_let<H: Host>(
    env: &mut Env,
    frame: usize,
    list: &Vec<Expression>,
    host: &mut H,
    depth: u64,
) -> (r: Result<Expression, EvalError>)
    requires
        old(env).wf(),
        frame < old(env).frames@.len(),
        list@.len() > 0,
    ensures
        settled(*old(env), *final(env), frame),
        agrees(sem_builtin(fm(old(env).frames@), frame as int, Prim::Let, models(list@), depth as nat), final(env).frames@, r),
    decreases depth, 3int,
{
    proof {
        lemma_models(list@);
    }
    arity(list, 3)?;
    let name = list[1].as_symbol_string()?;
    let v = eval_in(env, frame, &list[2], host, depth)?;
    eval_in_child(env, frame, bind_one(&name, &v), &list[3], host, depth)
}

/// `(let* ((name value)...) body)`: one new frame; each value is evaluated
/// there and bound in turn, so later ones see earlier ones.
fn b_let_many<H: Host>(
    env: &mut Env,
    frame: usize,
    list: &Vec<Expression>,
    host: &mut H,
    depth: u64,
) -> (r: Result<Expression, EvalError>)
    requires
        old(env).wf(),
        frame < old(env).frames@.len(),
        list@.len() > 0,
    ensures
        settled(*old(env), *final(env), frame),
        agrees(sem_builtin(fm(old(env).frames@), frame as int, Prim::LetMany, models(list@), depth as nat), final(env).frames@, r),
    decreases depth, 3int,
{
    proof {
        lemma_models(list@);
    }
    arity(list, 2)?;
    let pairs = match &list[1] {
        Expression::List(ps) => ps,
        _ => {
            return Err(type_error("the bindings are not a list"));
        },
    };
    let n = env.frames.len();
    if n >= MAX_FRAMES {
        return Err(limit_error());
    }
    let ghost a = env.frames@;
    let local = seeded_bindings();
    let ghost lg = local;
    let child = env.open_frame(Some(frame), local);
    proof {
        lemma_fm_push(a, Frame { parent: Some(frame), local: lg });
    }
    let r = let_many_body(env, child, pairs, &list[2], host, depth);
    proof {
        lemma_child_confined(a, env.frames@, frame as int, lg);
        lemma_fm_prefix(env.frames@, n as int);
    }
    env.close_frames(n);
    r
}

fn let_many_body<H: Host>(
    env: &mut Env,
    child: usize,
    pairs: &Vec<Expression>,
    body: &Expression,
    host: &mut H,
    depth: u64,
) -> (r: Result<Expression, EvalError>)
    requires
        old(env).wf(),
        child < old(env).frames@.len(),
    ensures
        final(env).wf(),
        crate::env::touches_only(old(env).frames@, final(env).frames@, child as int),
        agrees(
            crate::sem::sem_let_many(fm(old(env).frames@), child as int, models(pairs@), body.model(), depth as nat),
            final(env).frames@,
            r,
        ),
    decreases depth, 1int,
{
    let ghost f0 = env.frames@;
    let ghost ps = models(pairs@);
    let ghost dd = depth as nat;
    proof {
        lemma_models(pairs@);
    }
    let mut i: usize = 0;
    while i < pairs.len()
        invariant
            i <= pairs@.len(),
            env.wf(),
            child < env.frames@.len(),
            crate::env::touches_only(f0, env.frames@, child as int),
            f0 == old(env).frames@,
            ps == models(pairs@),
            dd == depth as nat,
            forall|j: int| 0 <= j < pairs@.len() ==> #[trigger] ps[j] == pairs@[j].model(),
            crate::sem::sem_pairs(fm(f0), child as int, ps, 0, dd) == crate::sem::sem_pairs(fm(env.frames@), child as int, ps, i as int, dd)
                || crate::sem::sem_pairs(fm(f0), child as int, ps, 0, dd) is Open,
        decreases pairs@.len() - i,
    {
        let ghost before = env.frames@;
        let (name, value) = match &pairs[i] {
            Expression::List(pair) => {
                proof {
                    lemma_models(pair@);
                }
                if pair.len() != 2 {
                    return Err(arity_error());
                }
                match &pair[0] {
                    Expression::Symbol(s) => (s.clone(), &pair[1]),
                    _ => {
                        return Err(type_error("a binding does not start with a symbol"));
                    },
                }
            },
            _ => {
                return Err(type_error("a binding is not a list"));
            },
        };
        let r = eval_in(env, child, value, host, depth);
        proof {
            crate::env::lemma_touches_trans(f0, before, env.frames@, child as int);
        }
        let v = r?;
        let ghost mid = env.frames@;
        let ghost nm = name@;
        let ghost vm = v.model();
        env.set_local(child, name, v);
        proof {
            crate::env::lemma_touches_trans(f0, mid, env.frames@, child as int);
            lemma_fm_bind(mid, env.frames@, child as int, nm, vm);
        }
        i = i + 1;
    }
    let ghost before = env.frames@;
    let r = eval_in(env, child, body, host, depth);
    proof {
        crate::env::lemma_touches_trans(f0, before, env.frames@, child as int);
    }
    r
}

/// `(eval x)`: the value of `x`, evaluated once more. With several
/// arguments, `(eval f a...)` evaluates the call `(f a...)`.
fn b_eval<H: Host>(
    env: &mut Env,
    frame: usize,
    list: &Vec<Expression>,
    host: &mut H,
    depth: u64,
) -> (r: Result<Expression, EvalError>)
    requires
        old(env).wf(),
        frame < old(env).frames@.len(),
        list@.len() > 0,
    ensures
        settled(*old(env), *final(env), frame),
        agrees(sem_builtin(fm(old(env).frames@), frame as int, Prim::Eval, models(list@), depth as nat), final(env).frames@, r),
    decreases depth, 3int,
{
    proof {
        lemma_models(list@);
    }
    if list.len() < 2 {
        return Err(arity_error());
    }
    if depth == 0 {
        return Err(limit_error());
    }
    if list.len() == 2 {
        let v = eval_in(env, frame, &list[1], host, depth)?;
        eval_in(env, frame, &v, host, depth - 1)
    } else {
        let rest = tail_of(list);
        eval_list(env, frame, &rest, host, depth - 1)
    }
}

/// The note that a failing builtin call adds: `Evaluating: ` and the call
/// written out (exactly, wherever `shown` describes its written form).
pub open spec fn note_of_call(note: Seq<char>, list: Seq<Expression>) -> bool {
    &&& note.len() >= 12
    &&& note.subrange(0, 12) == "Evaluating: "@
    &&& crate::text::shown(Value::List(models(list))) is Some ==> note == "Evaluating: "@
        + crate::text::shown(Value::List(models(list)))->0
}

/// What an import did, for the text `text` that the host read: its forms
/// (as the grammar reads them, where it describes them) were run as a
/// module; where the specification describes that run, its export table is
/// `t`; and the importing frame's import table became the old one with `t`'s
/// entries added, nothing else changing.
pub open spec fn import_effect(
    a: Seq<crate::sem::FrameM>,
    b: Seq<crate::sem::FrameM>,
    frame: int,
    d: nat,
    text: Seq<char>,
    forms: Seq<Value>,
    t: Map<Seq<char>, Value>,
) -> bool {
    &&& (crate::parse::pprogram(text, 0) is Done ==> crate::parse::pprogram(text, 0)
        == crate::parse::ParsedAll::Done(crate::parse::erases(forms), crate::parse::pprogram(text, 0)->Done_1))
    &&& (crate::sem::sem_module(a, forms, d) is Open || crate::sem::sem_module(a, forms, d)
        == Outcome::Done(Value::Table(t), a))
    &&& b == crate::sem::mbind(
        a,
        frame,
        crate::env::imported_key(),
        Value::Table(crate::sem::imports_at(a, frame).union_prefer_right(t)),
    )
}

/// The elements of `list` after the first.
fn tail_of(list: &Vec<Expression>) -> (r: Vec<Expression>)
    requires
        list@.len() > 1,
    ensures
        r@.len() == list@.len() - 1,
        r@.len() > 0,
        models(r@) == models(list@).drop_first(),
{
    let mut r: Vec<Expression> = Vec::new();
    let mut i: usize = 1;
    while i < list.len()
        invariant
            1 <= i <= list@.len(),
            r@.len() == i - 1,
            forall|j: int| 0 <= j < i - 1 ==> #[trigger] r@[j].model() == list@[j + 1].model(),
        decreases list@.len() - i,
    {
        r.push(list[i].clone());
        i = i + 1;
    }
    proof {
        lemma_models(r@);
        lemma_models(list@);
        assert(models(r@) =~= models(list@).drop_first());
    }
    r
}

/// `(eval-log f a...)`: evaluates the call `(f a...)` and prints how many
/// calls that took.
fn b_eval_log<H: Host>(
    env: &mut Env,
    frame: usize,
    list: &Vec<Expression>,
    host: &mut H,
    depth: u64,
) -> (r: Result<Expression, EvalError>)
    requires
        old(env).wf(),
        frame < old(env).frames@.len(),
        list@.len() > 0,
    ensures
        settled(*old(env), *final(env), frame),
    decreases depth, 3int,
{
    if list.len() < 2 {
        return Err(arity_error());
    }
    if depth == 0 {
        return Err(limit_error());
    }
    let before = env.count;
    let rest = tail_of(list);
    let result = eval_list(env, frame, &rest, host, depth - 1)?;
    let spent = if env.count >= before {
        env.count - before
    } else {
        0
    };
    let shown = if spent > i64::MAX as u64 {
        i64::MAX
    } else {
        spent as i64
    };
    let line = join2(String::from_str("Evaluation count: "), int_text(shown).as_str());
    host.print(line.as_str());
    Ok(result)
}

/// `(time x)`: the value of `x`; prints how long it took.
fn b_time<H: Host>(
    env: &mut Env,
    frame: usize,
    list: &Vec<Expression>,
    host: &mut H,
    depth: u64,
) -> (r: Result<Expression, EvalError>)
    requires
        old(env).wf(),
        frame < old(env).frames@.len(),
        list@.len() > 0,
    ensures
        settled(*old(env), *final(env), frame),
    decreases depth, 3int,
{
    arity(list, 1)?;
    let start = host.clock_ms();
    let r = eval_in(env, frame, &list[1], host, depth);
    let end = host.clock_ms();
    let took = if end >= start {
        end - start
    } else {
        0
    };
    let shown = if took > i64::MAX as u64 {
        i64::MAX
    } else {
        took as i64
    };
    let line = join2(String::from_str("Took: "), int_text(shown).as_str());
    let line = join2(line, " ms");
    host.print(line.as_str());
    r
}

/// `(for name items body)`: `body` once for each element of the list
/// `items`, in a new frame where `name` is bound to it; nil.
fn b_for<H: Host>(
    env: &mut Env,
    frame: usize,
    list: &Vec<Expression>,
    host: &mut H,
    depth: u64,
) -> (r: Result<Expression, EvalError>)
    requires
        old(env).wf(),
        frame < old(env).frames@.len(),
        list@.len() > 0,
    ensures
        settled(*old(env), *final(env), frame),
        r is Ok ==> r->Ok_0 is Nil,
        agrees(sem_builtin(fm(old(env).frames@), frame as int, Prim::For, models(list@), depth as nat), final(env).frames@, r),
    decreases depth, 3int,
{
    proof {
        lemma_models(list@);
    }
    arity(list, 3)?;
    let name = list[1].as_symbol_string()?;
    let lv = arg_value(env, frame, list, 2, host, depth)?;
    let items = lv.as_list()?;
    let ghost f0 = env.frames@;
    let ghost xs = models(items@);
    let ghost whole = sem_builtin(fm(old(env).frames@), frame as int, Prim::For, models(list@), depth as nat);
    proof {
        lemma_models(items@);
    }
    assert(!(whole is Open) ==> whole == crate::sem::sem_for(fm(f0), frame as int, name@, xs, list@[3].model(), 0, depth as nat));
    let mut i: usize = 0;
    while i < items.len()
        invariant
            i <= items@.len(),
            env.wf(),
            frame < env.frames@.len(),
            confined(old(env).frames@, env.frames@, frame as int),
            list@.len() == 4,
            xs == models(items@),
            forall|j: int| 0 <= j < items@.len() ==> #[trigger] xs[j] == items@[j].model(),
            whole == sem_builtin(fm(old(env).frames@), frame as int, Prim::For, models(list@), depth as nat),
            !(whole is Open) ==> whole == crate::sem::sem_for(fm(env.frames@), frame as int, name@, xs, list@[3].model(), i as int, depth as nat),
        decreases items@.len() - i,
    {
        proof {
            lemma_models(list@);
        }
        eval_in_child(env, frame, bind_one(&name, &items[i]), &list[3], host, depth)?;
        i = i + 1;
    }
    Ok(Expression::Nil)
}

/// `(for-i (name init) condition step body)`: while `condition` is not
/// nil, `body`, then `step` gives the next value of `name`; nil.
fn b_for_i<H: Host>(
    env: &mut Env,
    frame: usize,
    list: &Vec<Expression>,
    host: &mut H,
    depth: u64,
) -> (r: Result<Expression, EvalError>)
    requires
        old(env).wf(),
        frame < old(env).frames@.len(),
        list@.len() > 0,
    ensures
        settled(*old(env), *final(env), frame),
        r is Ok ==> r->Ok_0 is Nil,
    decreases depth, 3int,
{
    arity(list, 4)?;
    let (name, init) = match &list[1] {
        Expression::List(spec) => {
            if spec.len() != 2 {
                return Err(arity_error());
            }
            (spec[0].as_symbol_string()?, &spec[1])
        },
        _ => {
            return Err(type_error("the loop variable is not a list"));
        },
    };
    let mut current = eval_in(env, frame, init, host, depth)?;
    let ghost f0 = env.frames@;
    let mut budget: u64 = u64::MAX;
    loop
        invariant
            env.wf(),
            frame < env.frames@.len(),
            confined(old(env).frames@, env.frames@, frame as int),
            list@.len() == 5,
        decreases budget,
    {
        if budget == 0 {
            return Err(limit_error());
        }
        budget = budget - 1;
        let c = eval_in_child(env, frame, bind_one(&name, &current), &list[2], host, depth)?;
        if matches!(c, Expression::Nil) {
            break;
        }
        eval_in_child(env, frame, bind_one(&name, &current), &list[4], host, depth)?;
        current = eval_in_child(env, frame, bind_one(&name, &current), &list[3], host, depth)?;
    }
    Ok(Expression::Nil)
}

/// `(map f items)`: `f` called on each element of the list `items`.
fn b_map<H: Host>(
    env: &mut Env,
    frame: usize,
    list: &Vec<Expression>,
    host: &mut H,
    depth: u64,
) -> (r: Result<Expression, EvalError>)
    requires
        old(env).wf(),
        frame < old(env).frames@.len(),
        list@.len() > 0,
    ensures
        settled(*old(env), *final(env), frame),
        r is Ok ==> r->Ok_0 is List,
        agrees(sem_builtin(fm(old(env).frames@), frame as int, Prim::MapList, models(list@), depth as nat), final(env).frames@, r),
    decreases depth, 3int,
{
    proof {
        lemma_models(list@);
    }
    arity(list, 2)?;
    let ghost m_start = fm(env.frames@);
    let f = arg_value(env, frame, list, 1, host, depth)?;
    let ghost m1 = fm(env.frames@);
    let lv = arg_value(env, frame, list, 2, host, depth)?;
    let items = lv.as_list()?;
    let ghost e1 = sem_eval(m_start, frame as int, models(list@)[1], depth as nat);
    let ghost e2 = sem_eval(m1, frame as int, models(list@)[2], depth as nat);
    assert(e1 is Done ==> e1 == Outcome::Done(f.model(), m1));
    assert(e2 is Done ==> e2 == Outcome::Done(lv.model(), fm(env.frames@)));
    if depth == 0 {
        return Err(limit_error());
    }
    let ghost ms0 = fm(env.frames@);
    let ghost xs = models(items@);
    let ghost fv = f.model();
    let ghost dd = (depth - 1) as nat;
    proof {
        lemma_models(items@);
    }
    let mut out: Vec<Expression> = Vec::new();
    let mut i: usize = 0;
    assert(models(out@) =~= Seq::<Value>::empty());
    while i < items.len()
        invariant
            i <= items@.len(),
            env.wf(),
            frame < env.frames@.len(),
            confined(old(env).frames@, env.frames@, frame as int),
            depth > 0,
            dd == (depth - 1) as nat,
            xs == models(items@),
            forall|j: int| 0 <= j < items@.len() ==> #[trigger] xs[j] == items@[j].model(),
            fv == f.model(),
            crate::sem::sem_map(ms0, frame as int, fv, xs, i as int, dd) is Done ==> crate::sem::sem_map(
                ms0, frame as int, fv, xs, i as int, dd,
            ) == Outcomes::Done(models(out@), fm(env.frames@)),
            !(sem_builtin(fm(old(env).frames@), frame as int, Prim::MapList, models(list@), depth as nat) is Open)
                ==> sem_builtin(fm(old(env).frames@), frame as int, Prim::MapList, models(list@), depth as nat)
                == crate::sem::map_result(Prim::MapList, xs, crate::sem::sem_map(ms0, frame as int, fv, xs, xs.len() as int, dd)),
            !(crate::sem::sem_map(ms0, frame as int, fv, xs, i as int, dd) is Done) ==> crate::sem::sem_map(
                ms0, frame as int, fv, xs, xs.len() as int, dd,
            ) is Open,
            
        decreases items@.len() - i,
    {
        let mut one: Vec<Expression> = Vec::new();
        one.push(items[i].clone());
        proof {
            lemma_models(one@);
            assert(models(one@) =~= seq![xs[i as int]]);
        }
        let rv = apply_values(env, frame, &f, one, host, depth - 1);
        proof {
            if crate::sem::sem_map(ms0, frame as int, fv, xs, i as int, dd) is Done && !(crate::sem::sem_map(ms0, frame as int, fv, xs, i + 1, dd) is Done) {
                crate::sem::lemma_map_stop(ms0, frame as int, fv, xs, i + 1, xs.len() as int, dd);
            }
        }
        let v = rv?;
        let ghost before = out@;
        out.push(v);
        proof {
            lemma_models(before);
            lemma_models(out@);
            assert(models(out@) =~= models(before).push(v.model()));
        }
        i = i + 1;
    }
    proof {
        lemma_models(out@);
    }
    Ok(Expression::List(out))
}

/// `(fold f init items)`: `f` called on the value so far and each element
/// in turn, starting from `init`.
fn b_fold<H: Host>(
    env: &mut Env,
    frame: usize,
    list: &Vec<Expression>,
    host: &mut H,
    depth: u64,
) -> (r: Result<Expression, EvalError>)
    requires
        old(env).wf(),
        frame < old(env).frames@.len(),
        list@.len() > 0,
    ensures
        settled(*old(env), *final(env), frame),
        agrees(sem_builtin(fm(old(env).frames@), frame as int, Prim::Fold, models(list@), depth as nat), final(env).frames@, r),
    decreases depth, 3int,
{
    proof {
        lemma_models(list@);
    }
    arity(list, 3)?;
    let ghost m_start = fm(env.frames@);
    let f = arg_value(env, frame, list, 1, host, depth)?;
    let ghost m1 = fm(env.frames@);
    let mut acc = arg_value(env, frame, list, 2, host, depth)?;
    let ghost m2 = fm(env.frames@);
    let lv = arg_value(env, frame, list, 3, host, depth)?;
    let items = lv.as_list()?;
    let ghost e1 = sem_eval(m_start, frame as int, models(list@)[1], depth as nat);
    let ghost e2 = sem_eval(m1, frame as int, models(list@)[2], depth as nat);
    let ghost e3 = sem_eval(m2, frame as int, models(list@)[3], depth as nat);
    assert(e1 is Done ==> e1 == Outcome::Done(f.model(), m1));
    assert(e2 is Done ==> e2 == Outcome::Done(acc.model(), m2));
    assert(e3 is Done ==> e3 == Outcome::Done(lv.model(), fm(env.frames@)));
    if depth == 0 {
        return Err(limit_error());
    }
    let ghost ms0 = fm(env.frames@);
    let ghost xs = models(items@);
    let ghost fv = f.model();
    let ghost a0 = acc.model();
    let ghost dd = (depth - 1) as nat;
    proof {
        lemma_models(items@);
    }
    let mut i: usize = 0;
    while i < items.len()
        invariant
            i <= items@.len(),
            env.wf(),
            frame < env.frames@.len(),
            confined(old(env).frames@, env.frames@, frame as int),
            depth > 0,
            dd == (depth - 1) as nat,
            xs == models(items@),
            forall|j: int| 0 <= j < items@.len() ==> #[trigger] xs[j] == items@[j].model(),
            fv == f.model(),
            crate::sem::sem_fold(ms0, frame as int, fv, a0, xs, i as int, dd) is Done ==> crate::sem::sem_fold(
                ms0, frame as int, fv, a0, xs, i as int, dd,
            ) == Outcome::Done(acc.model(), fm(env.frames@)),
            crate::sem::sem_fold(ms0, frame as int, fv, a0, xs, i as int, dd) is FloatDone ==> crate::sem::sem_fold(
                ms0, frame as int, fv, a0, xs, i as int, dd,
            ) == Outcome::FloatDone(fm(env.frames@)) && acc is Float && (i < xs.len() ==> crate::sem::sem_fold(
                ms0, frame as int, fv, a0, xs, xs.len() as int, dd,
            ) is Open),
            !(sem_builtin(
                fm(old(env).frames@), frame as int, Prim::Fold, models(list@), depth as nat,
            ) is Open) ==> sem_builtin(
                fm(old(env).frames@), frame as int, Prim::Fold, models(list@), depth as nat,
            ) == crate::sem::sem_fold(ms0, frame as int, fv, a0, xs, xs.len() as int, dd),
            !(crate::sem::sem_fold(ms0, frame as int, fv, a0, xs, i as int, dd) is Done)
                && !(crate::sem::sem_fold(ms0, frame as int, fv, a0, xs, i as int, dd) is FloatDone) ==> crate::sem::sem_fold(
                ms0, frame as int, fv, a0, xs, xs.len() as int, dd,
            ) is Open,
        decreases items@.len() - i,
    {
        let mut two: Vec<Expression> = Vec::new();
        let ghost am = acc.model();
        two.push(acc);
        two.push(items[i].clone());
        proof {
            lemma_models(two@);
            assert(models(two@) =~= seq![am, xs[i as int]]);
        }
        let rv = apply_values(env, frame, &f, two, host, depth - 1);
        proof {
            let o0 = crate::sem::sem_fold(ms0, frame as int, fv, a0, xs, i as int, dd);
            let o1 = crate::sem::sem_fold(ms0, frame as int, fv, a0, xs, i + 1, dd);
            if o0 is Done && !(o1 is Done) && !(o1 is FloatDone) {
                crate::sem::lemma_fold_stop(ms0, frame as int, fv, a0, xs, i + 1, xs.len() as int, dd);
            }
            if o0 is Done && o1 is FloatDone && i + 1 < xs.len() {
                let o2 = crate::sem::sem_fold(ms0, frame as int, fv, a0, xs, i + 2, dd);
                assert(o2 is Open);
                crate::sem::lemma_fold_stop(ms0, frame as int, fv, a0, xs, i + 2, xs.len() as int, dd);
            }
        }
        acc = rv?;
        i = i + 1;
    }
    Ok(acc)
}

/// `(filter f items)`: the elements of `items` on which `f` is not nil.
fn b_filter<H: Host>(
    env: &mut Env,
    frame: usize,
    list: &Vec<Expression>,
    host: &mut H,
    depth: u64,
) -> (r: Result<Expression, EvalError>)
    requires
        old(env).wf(),
        frame < old(env).frames@.len(),
        list@.len() > 0,
    ensures
        settled(*old(env), *final(env), frame),
        r is Ok ==> r->Ok_0 is List,
        agrees(sem_builtin(fm(old(env).frames@), frame as int, Prim::Filter, models(list@), depth as nat), final(env).frames@, r),
    decreases depth, 3int,
{
    proof {
        lemma_models(list@);
    }
    arity(list, 2)?;
    let ghost m_start = fm(env.frames@);
    let f = arg_value(env, frame, list, 1, host, depth)?;
    let ghost m1 = fm(env.frames@);
    let lv = arg_value(env, frame, list, 2, host, depth)?;
    let items = lv.as_list()?;
    let ghost e1 = sem_eval(m_start, frame as int, models(list@)[1], depth as nat);
    let ghost e2 = sem_eval(m1, frame as int, models(list@)[2], depth as nat);
    assert(e1 is Done ==> e1 == Outcome::Done(f.model(), m1));
    assert(e2 is Done ==> e2 == Outcome::Done(lv.model(), fm(env.frames@)));
    if depth == 0 {
        return Err(limit_error());
    }
    let ghost ms0 = fm(env.frames@);
    let ghost xs = models(items@);
    let ghost fv = f.model();
    let ghost dd = (depth - 1) as nat;
    proof {
        lemma_models(items@);
    }
    let mut out: Vec<Expression> = Vec::new();
    let mut res: Vec<Expression> = Vec::new();
    assert(models(res@) =~= Seq::<Value>::empty());
    let mut i: usize = 0;
    assert(models(out@) =~= Seq::<Value>::empty());
    while i < items.len()
        invariant
            i <= items@.len(),
            env.wf(),
            frame < env.frames@.len(),
            confined(old(env).frames@, env.frames@, frame as int),
            depth > 0,
            dd == (depth - 1) as nat,
            xs == models(items@),
            forall|j: int| 0 <= j < items@.len() ==> #[trigger] xs[j] == items@[j].model(),
            fv == f.model(),
            crate::sem::sem_map(ms0, frame as int, fv, xs, i as int, dd) is Done ==> crate::sem::sem_map(
                ms0, frame as int, fv, xs, i as int, dd,
            ) == Outcomes::Done(models(res@), fm(env.frames@)),
            !(sem_builtin(fm(old(env).frames@), frame as int, Prim::Filter, models(list@), depth as nat) is Open)
                ==> sem_builtin(fm(old(env).frames@), frame as int, Prim::Filter, models(list@), depth as nat)
                == crate::sem::map_result(Prim::Filter, xs, crate::sem::sem_map(ms0, frame as int, fv, xs, xs.len() as int, dd)),
            !(crate::sem::sem_map(ms0, frame as int, fv, xs, i as int, dd) is Done) ==> crate::sem::sem_map(
                ms0, frame as int, fv, xs, xs.len() as int, dd,
            ) is Open,
            models(out@) == crate::sem::kept(xs, models(res@), i as int),
            res@.len() == i,
        decreases items@.len() - i,
    {
        let mut one: Vec<Expression> = Vec::new();
        one.push(items[i].clone());
        proof {
            lemma_models(one@);
            assert(models(one@) =~= seq![xs[i as int]]);
        }
        let rv = apply_values(env, frame, &f, one, host, depth - 1);
        proof {
            if crate::sem::sem_map(ms0, frame as int, fv, xs, i as int, dd) is Done && !(crate::sem::sem_map(ms0, frame as int, fv, xs, i + 1, dd) is Done) {
                crate::sem::lemma_map_stop(ms0, frame as int, fv, xs, i + 1, xs.len() as int, dd);
            }
        }
        let v = rv?;
        let ghost before = out@;
        let ghost rbefore = res@;
        let keep = !matches!(v, Expression::Nil);
        if keep {
            out.push(items[i].clone());
        }
        res.push(v);
        proof {
            lemma_models(before);
            lemma_models(out@);
            lemma_models(rbefore);
            lemma_models(res@);
            assert(models(res@) =~= models(rbefore).push(res@[i as int].model()));
            assert(models(res@).subrange(0, i as int) =~= models(rbefore));
            crate::sem::lemma_kept_prefix(xs, models(rbefore), models(res@), i as int);
            if keep {
                assert(models(out@) =~= models(before).push(xs[i as int]));
            } else {
                assert(models(out@) =~= models(before));
            }
        }
        i = i + 1;
    }
    Ok(Expression::List(out))
}

/// `(zip-with f a b)`: `f` called on the elements of `a` and `b` at each
/// index, as far as the shorter goes.
fn b_zip_with<H: Host>(
    env: &mut Env,
    frame: usize,
    list: &Vec<Expression>,
    host: &mut H,
    depth: u64,
) -> (r: Result<Expression, EvalError>)
    requires
        old(env).wf(),
        frame < old(env).frames@.len(),
        list@.len() > 0,
    ensures
        settled(*old(env), *final(env), frame),
        r is Ok ==> r->Ok_0 is List,
        agrees(sem_builtin(fm(old(env).frames@), frame as int, Prim::ZipWith, models(list@), depth as nat), final(env).frames@, r),
    decreases depth, 3int,
{
    proof {
        lemma_models(list@);
    }
    arity(list, 3)?;
    let ghost m_start = fm(env.frames@);
    let f = arg_value(env, frame, list, 1, host, depth)?;
    let ghost m1 = fm(env.frames@);
    let av = arg_value(env, frame, list, 2, host, depth)?;
    let a = av.as_list()?;
    let ghost m2 = fm(env.frames@);
    let bv = arg_value(env, frame, list, 3, host, depth)?;
    let b = bv.as_list()?;
    let ghost e1 = sem_eval(m_start, frame as int, models(list@)[1], depth as nat);
    let ghost e2 = sem_eval(m1, frame as int, models(list@)[2], depth as nat);
    let ghost e3 = sem_eval(m2, frame as int, models(list@)[3], depth as nat);
    assert(e1 is Done ==> e1 == Outcome::Done(f.model(), m1));
    assert(e2 is Done ==> e2 == Outcome::Done(av.model(), m2));
    assert(e3 is Done ==> e3 == Outcome::Done(bv.model(), fm(env.frames@)));
    if depth == 0 {
        return Err(limit_error());
    }
    let ghost ms0 = fm(env.frames@);
    let ghost xs = models(a@);
    let ghost ys = models(b@);
    let ghost fv = f.model();
    let ghost dd = (depth - 1) as nat;
    let ghost n = crate::sem::min_len(xs, ys);
    let ghost whole = sem_builtin(fm(old(env).frames@), frame as int, Prim::ZipWith, models(list@), depth as nat);
    proof {
        lemma_models(a@);
        lemma_models(b@);
    }
    assert(!(whole is Open) ==> whole == crate::sem::list_outcome(crate::sem::sem_zip_with(ms0, frame as int, fv, xs, ys, n, dd)));
    let mut out: Vec<Expression> = Vec::new();
    assert(models(out@) =~= Seq::<Value>::empty());
    let mut i: usize = 0;
    while i < a.len() && i < b.len()
        invariant
            i <= a@.len(),
            i <= n,
            n == crate::sem::min_len(xs, ys),
            env.wf(),
            frame < env.frames@.len(),
            confined(old(env).frames@, env.frames@, frame as int),
            depth > 0,
            dd == (depth - 1) as nat,
            xs == models(a@),
            ys == models(b@),
            forall|j: int| 0 <= j < a@.len() ==> #[trigger] xs[j] == a@[j].model(),
            forall|j: int| 0 <= j < b@.len() ==> #[trigger] ys[j] == b@[j].model(),
            fv == f.model(),
            whole == sem_builtin(fm(old(env).frames@), frame as int, Prim::ZipWith, models(list@), depth as nat),
            !(whole is Open) ==> whole == crate::sem::list_outcome(crate::sem::sem_zip_with(ms0, frame as int, fv, xs, ys, n, dd)),
            crate::sem::sem_zip_with(ms0, frame as int, fv, xs, ys, i as int, dd) is Done ==> crate::sem::sem_zip_with(
                ms0, frame as int, fv, xs, ys, i as int, dd,
            ) == Outcomes::Done(models(out@), fm(env.frames@)),
            !(crate::sem::sem_zip_with(ms0, frame as int, fv, xs, ys, i as int, dd) is Done) ==> crate::sem::sem_zip_with(
                ms0, frame as int, fv, xs, ys, n, dd,
            ) is Open,
        decreases a@.len() - i,
    {
        let mut two: Vec<Expression> = Vec::new();
        two.push(a[i].clone());
        two.push(b[i].clone());
        proof {
            lemma_models(two@);
            assert(models(two@) =~= seq![xs[i as int], ys[i as int]]);
        }
        let rv = apply_values(env, frame, &f, two, host, depth - 1);
        proof {
            if crate::sem::sem_zip_with(ms0, frame as int, fv, xs, ys, i as int, dd) is Done && !(crate::sem::sem_zip_with(ms0, frame as int, fv, xs, ys, i + 1, dd) is Done) {
                crate::sem::lemma_zip_with_stop(ms0, frame as int, fv, xs, ys, i + 1, n, dd);
            }
        }
        let v = rv?;
        let ghost before = out@;
        out.push(v);
        proof {
            lemma_models(before);
            lemma_models(out@);
            assert(models(out@) =~= models(before).push(v.model()));
        }
        i = i + 1;
    }
    proof {
        lemma_models(out@);
    }
    Ok(Expression::List(out))
}

/// `(web-server port ((path handler)...))`: answers each request that the
/// host receives on `port` with the string that the handler for its path
/// evaluates to, or `404` where no route matches; nil once the host has no
/// more requests.
fn b_web_server<H: Host>(
    env: &mut Env,
    frame: usize,
    list: &Vec<Expression>,
    host: &mut H,
    depth: u64,
) -> (r: Result<Expression, EvalError>)
    requires
        old(env).wf(),
        frame < old(env).frames@.len(),
        list@.len() > 0,
    ensures
        settled(*old(env), *final(env), frame),
        r is Ok ==> r->Ok_0 is Nil,
    decreases depth, 3int,
{
    arity(list, 2)?;
    let port = arg_value(env, frame, list, 1, host, depth)?.as_i64()?;
    let routes = arg_list(env, frame, list, 2, host, depth)?;
    let ghost f0 = env.frames@;
    let mut router = Bindings::new();
    let mut i: usize = 0;
    while i < routes.len()
        invariant
            i <= routes@.len(),
            env.wf(),
            frame < env.frames@.len(),
            confined(old(env).frames@, env.frames@, frame as int),
        decreases routes@.len() - i,
    {
        let route = eval_in(env, frame, &routes[i], host, depth)?.as_list()?;
        if route.len() < 2 {
            return Err(arity_error());
        }
        let path = eval_in(env, frame, &route[0], host, depth)?.as_string()?;
        let handler = eval_in(env, frame, &route[1], host, depth)?;
        router.insert(path, handler);
        i = i + 1;
    }
    let mut budget: u64 = u64::MAX;
    loop
        invariant
            env.wf(),
            frame < env.frames@.len(),
            confined(old(env).frames@, env.frames@, frame as int),
        decreases budget,
    {
        if budget == 0 {
            return Err(limit_error());
        }
        budget = budget - 1;
        let url = match host.next_request(port) {
            Some(u) => u,
            None => {
                break;
            },
        };
        let body = match router.get(url.as_str()) {
            Some(handler) => eval_in(env, frame, &handler, host, depth)?.as_string()?,
            None => String::from_str("404"),
        };
        host.respond(body.as_str());
    }
    Ok(Expression::Nil)
}

/// `(import "path")`: runs the file at `path` in a fresh outermost frame
/// that holds only the registry, then adds what it exported to this
/// frame's import table. The file is read and run anew each time.
fn b_import<H: Host>(
    env: &mut Env,
    frame: usize,
    list: &Vec<Expression>,
    host: &mut H,
    depth: u64,
) -> (r: Result<Expression, EvalError>)
    requires
        old(env).wf(),
        frame < old(env).frames@.len(),
        list@.len() > 0,
    ensures
        settled(*old(env), *final(env), frame),
        r is Ok ==> r->Ok_0 is Nil,
        r is Ok ==> crate::env::same_but(old(env).frames@, final(env).frames@, frame as int),
        r is Ok ==> forall|k: Seq<char>|
            k != crate::env::imported_key() ==> #[trigger] local_of(final(env).frames@, frame as int).get(k)
                == local_of(old(env).frames@, frame as int).get(k),
        list@.len() != 2 ==> r is Err && r->Err_0.kind == ErrorKind::Arity,
        list@.len() == 2 && !(list@[1] is String) ==> r is Err && r->Err_0.kind == ErrorKind::Type,
        r is Ok ==> exists|text: Seq<char>, forms: Seq<Value>, t: Map<Seq<char>, Value>|
            #[trigger] import_effect(fm(old(env).frames@), fm(final(env).frames@), frame as int, depth as nat, text, forms, t),
        agrees(sem_builtin(fm(old(env).frames@), frame as int, Prim::Import, models(list@), depth as nat), final(env).frames@, r),
    decreases depth, 3int,
{
    proof {
        lemma_models(list@);
    }
    arity(list, 1)?;
    let path = list[1].as_string()?;
    let content = match host.read_file(path.as_str()) {
        Some(c) => c,
        None => {
            return Err(EvalError::new(ErrorKind::Io, "the module cannot be read"));
        },
    };
    let forms = parse_program(content.as_str(), &*host)?;
    proof {
        lemma_models(forms@);
    }
    let ghost f_old = env.frames@;
    let ghost fs = models(forms@);
    let exported = run_module(env, &forms, host, depth)?;
    let ghost ex = bindings_of(exported);
    let mut table = match env.frames[frame].local.get("__IMPORTED") {
        Some(Expression::Table(t)) => t,
        None => Bindings::new(),
        Some(_) => {
            return Err(type_error("the import table is not a table"));
        },
    };
    table.extend(exported);
    let ghost a = env.frames@;
    let ghost tm = Expression::Table(table).model();
    env.set_local(frame, String::from_str("__IMPORTED"), Expression::Table(table));
    proof {
        lemma_reserved_confined(a, env.frames@, frame as int, "__IMPORTED"@, tm);
        lemma_fm_bind(a, env.frames@, frame as int, "__IMPORTED"@, tm);
        let so = crate::sem::sem_module(fm(f_old), fs, depth as nat);
        if !(so is Open) {
            assert(so == Outcome::Done(Value::Table(ex), fm(f_old)));
        }
        assert(crate::sem::imports_at(fm(a), frame as int).union_prefer_right(ex) =~= bindings_of(table));
        assert(import_effect(fm(old(env).frames@), fm(env.frames@), frame as int, depth as nat, content@, fs, ex));
    }
    Ok(Expression::Nil)
}

/// Runs `forms` in two fresh frames, an outermost one holding the registry
/// and a child of it; returns what the child exported. Every frame that
/// was open before is left as it was.
fn run_module<H: Host>(
    env: &mut Env,
    forms: &Vec<Expression>,
    host: &mut H,
    depth: u64,
) -> (r: Result<Bindings, EvalError>)
    requires
        old(env).wf(),
    ensures
        final(env).wf(),
        final(env).frames@ == old(env).frames@,
        match crate::sem::sem_module(fm(old(env).frames@), models(forms@), depth as nat) {
            Outcome::Done(Value::Table(t), _) => r is Ok && bindings_of(r->Ok_0) == t,
            Outcome::Failed(k, _) => r is Err && r->Err_0.kind == k,
            _ => true,
        },
    decreases depth, 2int,
{
    let n = env.frames.len();
    if n >= MAX_FRAMES - 2 {
        return Err(limit_error());
    }
    let ghost a = env.frames@;
    let reg = registry();
    let ghost l1 = reg;
    let root = env.open_frame(None, reg);
    let local = seeded_bindings();
    let ghost l2 = local;
    let m = env.open_frame(Some(root), local);
    proof {
        lemma_fm_push(a, Frame { parent: None, local: l1 });
        lemma_fm_push(a.push(Frame { parent: None, local: l1 }), Frame { parent: Some(root), local: l2 });
        assert(fm(env.frames@) == crate::sem::module_start(fm(a)));
    }
    let r = run_forms(env, m, forms, host, depth);
    let exported = env.frames[m].local.get("__EXPORTED");
    assert(local_of(env.frames@, m as int) == fm(env.frames@)[m as int].local);
    proof {
        lemma_fresh_untouched(a, env.frames@, l1, l2);
    }
    env.close_frames(n);
    r?;
    match exported {
        Some(Expression::Table(t)) => Ok(t),
        None => Ok(Bindings::new()),
        Some(_) => Err(type_error("the export table is not a table")),
    }
}

/// `(export name)`: adds `name`, with the value it resolves to here (nil
/// where it has none), to this frame's export table.
fn b_export<H: Host>(
    env: &mut Env,
    frame: usize,
    list: &Vec<Expression>,
    host: &mut H,
    depth: u64,
) -> (r: Result<Expression, EvalError>)
    requires
        old(env).wf(),
        frame < old(env).frames@.len(),
        list@.len() > 0,
    ensures
        settled(*old(env), *final(env), frame),
        r is Ok ==> r->Ok_0 is Nil,
        agrees(sem_builtin(fm(old(env).frames@), frame as int, Prim::Export, models(list@), depth as nat), final(env).frames@, r),
    decreases depth, 3int,
{
    proof {
        lemma_models(list@);
    }
    arity(list, 1)?;
    let name = list[1].as_symbol_string()?;
    let v = match env.get(frame, name.as_str()) {
        Some(v) => v,
        None => Expression::Nil,
    };
    let mut table = match env.frames[frame].local.get("__EXPORTED") {
        Some(Expression::Table(t)) => t,
        None => Bindings::new(),
        Some(_) => {
            return Err(type_error("the export table is not a table"));
        },
    };
    table.insert(name, v);
    let ghost a = env.frames@;
    let ghost tm = Expression::Table(table).model();
    env.set_local(frame, String::from_str("__EXPORTED"), Expression::Table(table));
    proof {
        lemma_reserved_confined(a, env.frames@, frame as int, "__EXPORTED"@, tm);
        lemma_fm_bind(a, env.frames@, frame as int, "__EXPORTED"@, tm);
        lemma_fm_resolve(a, frame as int, list@[1]->Symbol_0@);
    }
    Ok(Expression::Nil)
}

/// Like `run`, and then prints how many calls the evaluation took.
pub fn run_log<H: Host>(env: &mut Env, host: &mut H, input: &str) -> (r: Result<Expression, EvalError>)
    requires
        old(env).wf(),
    ensures
        settled(*old(env), *final(env), 0),
        (forall|j: int| 0 <= j < input@.len() ==> crate::parse::is_ws(#[trigger] input@[j])) ==> r is Ok
            && r->Ok_0 is Nil,
        match crate::parse::pprogram(input@, 0) {
            crate::parse::ParsedAll::Failed => r is Err && r->Err_0.kind == ErrorKind::Parse
                && final(env).frames@ == old(env).frames@,
            crate::parse::ParsedAll::Done(forms, _) => exists|fs: Seq<Value>|
                #[trigger] crate::parse::erases(fs) == forms && agrees(
                    sem_forms(fm(old(env).frames@), 0, fs, fs.len() as int, MAX_DEPTH as nat),
                    final(env).frames@,
                    r,
                ),
            crate::parse::ParsedAll::Open => true,
        },
{
    let before = env.count;
    let r = run(env, host, input)?;
    let spent = if env.count >= before {
        env.count - before
    } else {
        0
    };
    let shown = if spent > i64::MAX as u64 {
        i64::MAX
    } else {
        spent as i64
    };
    let line = join2(String::from_str("Evaluation count: "), int_text(shown).as_str());
    host.print(line.as_str());
    Ok(r)
}

} // verus!

use vstd::prelude::*;

use crate::call::{has_hole, partial_model};
use crate::env::{
    chain_get, exported_key, imported_key, imports_get, local_of, resolve, root_of, seeded, Frame,
};
use crate::error::ErrorKind;
use crate::ops::{
    all_texts, joined, tangled, all_numbers, is_number, any_float, first_against_rest, int_of, int_result, needs_first, ArithOp, CmpOp,
};
use crate::text::{shown, split_of};
use crate::value::{bool_value, kind_name, truthy, Prim, Value};

verus! {

/// A frame as the evaluator's specification sees it: its parent and what
/// it binds.
pub struct FrameM {
    pub parent: Option<usize>,
    pub local: Map<Seq<char>, Value>,
}

/// An outcome whose value a later step would need: failures pass on, and
/// anything else becomes `Open`.
pub open spec fn stop(o: Outcome) -> Outcome {
    match o {
        Outcome::Failed(k, ms) => Outcome::Failed(k, ms),
        _ => Outcome::Open,
    }
}

/// The model of a sequence of frames.
pub open spec fn fm(fs: Seq<Frame>) -> Seq<FrameM> {
    Seq::new(fs.len(), |i: int| FrameM { parent: fs[i].parent, local: local_of(fs, i) })
}

/// What evaluation gives: a value or an error, with the frames after it; or
/// `Open` where the outcome depends on the host (float arithmetic, input
/// and output) or on a form this specification does not describe.
pub enum Outcome {
    Done(Value, Seq<FrameM>),
    /// Success with a float, whose bits the host computes.
    FloatDone(Seq<FrameM>),
    Failed(ErrorKind, Seq<FrameM>),
    Open,
}

/// What evaluating several expressions in turn gives.
pub enum Outcomes {
    Done(Seq<Value>, Seq<FrameM>),
    Failed(ErrorKind, Seq<FrameM>),
    Open,
}

pub open spec fn mchain(ms: Seq<FrameM>, i: int, name: Seq<char>) -> Option<Value>
    decreases i,
{
    if !(0 <= i < ms.len()) {
        None
    } else if ms[i].local.contains_key(name) {
        Some(ms[i].local[name])
    } else {
        match ms[i].parent {
            Some(p) => if p < i {
                mchain(ms, p as int, name)
            } else {
                None
            },
            None => None,
        }
    }
}

pub open spec fn mimports(ms: Seq<FrameM>, i: int, name: Seq<char>) -> Option<Value>
    decreases i,
{
    if !(0 <= i < ms.len()) {
        None
    } else {
        let here = match ms[i].local.get(imported_key()) {
            Some(Value::Table(t)) => t.get(name),
            _ => None,
        };
        match here {
            Some(v) => Some(v),
            None => match ms[i].parent {
                Some(p) => if p < i {
                    mimports(ms, p as int, name)
                } else {
                    None
                },
                None => None,
            },
        }
    }
}

/// What a symbol evaluates to in frame `i`: its binding in the frame or
/// its ancestors, else in their import tables (nearest first), else nil.
pub open spec fn msymbol(ms: Seq<FrameM>, i: int, name: Seq<char>) -> Value {
    match mchain(ms, i, name) {
        Some(v) => v,
        None => match mimports(ms, i, name) {
            Some(v) => v,
            None => Value::Nil,
        },
    }
}

pub open spec fn mroot(ms: Seq<FrameM>, i: int) -> int
    decreases i,
{
    if !(0 <= i < ms.len()) {
        i
    } else {
        match ms[i].parent {
            Some(p) => if p < i {
                mroot(ms, p as int)
            } else {
                i
            },
            None => i,
        }
    }
}

pub proof fn lemma_fm_lookup(fs: Seq<Frame>, i: int, name: Seq<char>)
    ensures
        chain_get(fs, i, name) == mchain(fm(fs), i, name),
        imports_get(fs, i, name) == mimports(fm(fs), i, name),
        root_of(fs, i) == mroot(fm(fs), i),
    decreases i,
{
    if 0 <= i < fs.len() {
        match fs[i].parent {
            Some(p) => {
                if p < i {
                    lemma_fm_lookup(fs, p as int, name);
                }
            },
            None => {},
        }
    }
}

pub proof fn lemma_fm_resolve(fs: Seq<Frame>, i: int, name: Seq<char>)
    ensures
        msymbol(fm(fs), i, name) == match resolve(fs, i, name) {
            Some(v) => v,
            None => Value::Nil,
        },
{
    lemma_fm_lookup(fs, i, name);
}

pub proof fn lemma_fm_push(fs: Seq<Frame>, f: Frame)
    ensures
        fm(fs.push(f)) == fm(fs).push(FrameM { parent: f.parent, local: crate::bindings::bindings_of(f.local) }),
{
    assert(fm(fs.push(f)) =~= fm(fs).push(FrameM { parent: f.parent, local: crate::bindings::bindings_of(f.local) }));
}

pub proof fn lemma_fm_prefix(fs: Seq<Frame>, n: int)
    requires
        0 <= n <= fs.len(),
    ensures
        fm(fs.subrange(0, n)) == fm(fs).subrange(0, n),
{
    assert(fm(fs.subrange(0, n)) =~= fm(fs).subrange(0, n));
}

/// The frames `ms` with `name` bound to `v` in frame `i`.
pub open spec fn mbind(ms: Seq<FrameM>, i: int, name: Seq<char>, v: Value) -> Seq<FrameM> {
    ms.update(i, FrameM { parent: ms[i].parent, local: ms[i].local.insert(name, v) })
}

pub proof fn lemma_fm_bind(a: Seq<Frame>, b: Seq<Frame>, i: int, name: Seq<char>, v: Value)
    requires
        0 <= i < a.len(),
        crate::env::same_but(a, b, i),
        local_of(b, i) == local_of(a, i).insert(name, v),
    ensures
        fm(b) == mbind(fm(a), i, name, v),
{
    assert(fm(b) =~= mbind(fm(a), i, name, v));
}

/// The number of frames beyond which no frame is opened.
pub open spec fn frame_cap() -> int {
    crate::eval::MAX_FRAMES as int
}

/// `e` evaluated in frame `f` of `ms`, nesting at most `d` deep.
pub open spec fn sem_eval(ms: Seq<FrameM>, f: int, e: Value, d: nat) -> Outcome
    decreases d, 0nat,
{
    match e {
        Value::Symbol(s) => Outcome::Done(msymbol(ms, f, s), ms),
        Value::List(items) => if items.len() == 0 {
            Outcome::Done(e, ms)
        } else if d == 0 {
            Outcome::Failed(ErrorKind::Limit, ms)
        } else {
            sem_list(ms, f, items, (d - 1) as nat)
        },
        _ => Outcome::Done(e, ms),
    }
}

/// The bindings `pairs[j..]` of a `let*`, each `(name value)` evaluated in
/// frame `c` and bound there in turn.
pub open spec fn sem_pairs(ms: Seq<FrameM>, c: int, pairs: Seq<Value>, j: int, d: nat) -> Outcomes
    decreases d, 1nat, pairs.len() - j,
{
    if j < 0 || j >= pairs.len() {
        Outcomes::Done(seq![], ms)
    } else if !(pairs[j] is List) {
        Outcomes::Failed(ErrorKind::Type, ms)
    } else if pairs[j]->List_0.len() != 2 {
        Outcomes::Failed(ErrorKind::Arity, ms)
    } else if !(pairs[j]->List_0[0] is Symbol) {
        Outcomes::Failed(ErrorKind::Type, ms)
    } else {
        match sem_eval(ms, c, pairs[j]->List_0[1], d) {
            Outcome::Done(v, ms1) => sem_pairs(
                mbind(ms1, c, pairs[j]->List_0[0]->Symbol_0, v),
                c,
                pairs,
                j + 1,
                d,
            ),
            Outcome::Failed(k, ms1) => Outcomes::Failed(k, ms1),
            Outcome::Open | Outcome::FloatDone(_) => Outcomes::Open,
        }
    }
}

/// The bindings of a `let*` and then its body, in frame `c`.
pub open spec fn sem_let_many(ms: Seq<FrameM>, c: int, pairs: Seq<Value>, body: Value, d: nat) -> Outcome
    decreases d, 2nat,
{
    match sem_pairs(ms, c, pairs, 0, d) {
        Outcomes::Done(_, ms1) => sem_eval(ms1, c, body, d),
        Outcomes::Failed(k, ms1) => Outcome::Failed(k, ms1),
        Outcomes::Open => Outcome::Open,
    }
}

/// `body` evaluated once for each of `xs[j..]`, in a new frame where
/// `name` is bound to it; nil.
pub open spec fn sem_for(ms: Seq<FrameM>, f: int, name: Seq<char>, xs: Seq<Value>, body: Value, j: int, d: nat) -> Outcome
    decreases d, 2nat, xs.len() - j,
{
    if j < 0 || j >= xs.len() {
        Outcome::Done(Value::Nil, ms)
    } else {
        match sem_child(ms, f, seeded().insert(name, xs[j]), body, d) {
            Outcome::Done(_, ms1) => sem_for(ms1, f, name, xs, body, j + 1, d),
            Outcome::FloatDone(ms1) => sem_for(ms1, f, name, xs, body, j + 1, d),
            other => other,
        }
    }
}

/// `and` (or `or`) over the arguments `items[j..]`: each is evaluated in
/// turn until one decides the answer.
pub open spec fn sem_andor(ms: Seq<FrameM>, f: int, items: Seq<Value>, is_and: bool, j: int, d: nat) -> Outcome
    decreases d, 3nat, items.len() - j,
{
    if j < 1 || j >= items.len() {
        Outcome::Done(bool_value(is_and), ms)
    } else {
        match sem_eval(ms, f, items[j], d) {
            Outcome::Done(v, ms1) => if truthy(v) != is_and {
                Outcome::Done(bool_value(truthy(v)), ms1)
            } else {
                sem_andor(ms1, f, items, is_and, j + 1, d)
            },
            other => stop(other),
        }
    }
}

/// The call `items`: its head is evaluated, once more where that gives a
/// list, and what results is applied; a head that is not callable makes
/// the list data.
pub open spec fn sem_list(ms: Seq<FrameM>, f: int, items: Seq<Value>, d: nat) -> Outcome
    decreases d, 6nat,
{
    if items.len() == 0 {
        Outcome::Done(Value::List(items), ms)
    } else {
        match sem_eval(ms, f, items[0], d) {
            Outcome::Done(h, ms1) => if h is List {
                match sem_eval(ms1, f, h, d) {
                    Outcome::Done(c, ms2) => sem_callee(ms2, f, c, items, d),
                    other => stop(other),
                }
            } else {
                sem_callee(ms1, f, h, items, d)
            },
            other => stop(other),
        }
    }
}

/// The arguments `items[1..=m]`, evaluated left to right.
pub open spec fn sem_args(ms: Seq<FrameM>, f: int, items: Seq<Value>, m: int, d: nat) -> Outcomes
    decreases d, 1nat, m,
{
    if m <= 0 || m >= items.len() {
        Outcomes::Done(seq![], ms)
    } else {
        match sem_args(ms, f, items, m - 1, d) {
            Outcomes::Done(vs, ms1) => match sem_eval(ms1, f, items[m], d) {
                Outcome::Done(v, ms2) => Outcomes::Done(vs.push(v), ms2),
                Outcome::Failed(k, ms2) => Outcomes::Failed(k, ms2),
                Outcome::Open | Outcome::FloatDone(_) => Outcomes::Open,
            },
            other => other,
        }
    }
}

/// `e` evaluated in a new frame, child of `f`, that binds `local`; the
/// frame is gone afterwards.
pub open spec fn sem_child(ms: Seq<FrameM>, f: int, local: Map<Seq<char>, Value>, e: Value, d: nat) -> Outcome
    decreases d, 1nat,
{
    if ms.len() >= frame_cap() {
        Outcome::Failed(ErrorKind::Limit, ms)
    } else {
        match sem_eval(ms.push(FrameM { parent: Some(f as usize), local }), ms.len() as int, e, d) {
            Outcome::Done(v, ms2) => Outcome::Done(v, ms2.subrange(0, ms.len() as int)),
            Outcome::Failed(k, ms2) => Outcome::Failed(k, ms2.subrange(0, ms.len() as int)),
            Outcome::FloatDone(ms2) => Outcome::FloatDone(ms2.subrange(0, ms.len() as int)),
            Outcome::Open => Outcome::Open,
        }
    }
}

/// The parameters bound to the values, first to last, over the reserved
/// tables.
pub open spec fn bind_params(params: Seq<Value>, vs: Seq<Value>, j: int) -> Map<Seq<char>, Value>
    decreases j,
{
    if j <= 0 {
        seeded()
    } else {
        bind_params(params, vs, j - 1).insert(params[j - 1]->Symbol_0, vs[j - 1])
    }
}

pub open spec fn all_symbols(vs: Seq<Value>) -> bool {
    forall|i: int| 0 <= i < vs.len() ==> #[trigger] vs[i] is Symbol
}

/// Applying the value `c` to the unevaluated arguments `items[1..]`.
pub open spec fn sem_callee(ms: Seq<FrameM>, f: int, c: Value, items: Seq<Value>, d: nat) -> Outcome
    decreases d, 5nat,
{
    match c {
        Value::Function { params, body } => {
            let k = items.len() - 1;
            let n = params.len();
            if k == 0 && n > 0 {
                Outcome::Done(c, ms)
            } else if k > n {
                Outcome::Failed(ErrorKind::Arity, ms)
            } else if k < n || has_hole(items.drop_first()) {
                Outcome::Done(partial_model(items[0], params, items.drop_first()), ms)
            } else if n == 0 {
                sem_child(ms, f, seeded(), *body, d)
            } else {
                match sem_args(ms, f, items, k, d) {
                    Outcomes::Done(vs, ms1) => if !all_symbols(params) {
                        Outcome::Failed(ErrorKind::Type, ms1)
                    } else {
                        sem_child(ms1, f, bind_params(params, vs, n as int), *body, d)
                    },
                    Outcomes::Failed(k, ms1) => Outcome::Failed(k, ms1),
                    Outcomes::Open => Outcome::Open,
                }
            }
        },
        Value::Builtin(p) => sem_builtin(ms, f, p, items, d),
        _ => Outcome::Done(Value::List(items), ms),
    }
}

pub open spec fn arith_op_of(p: Prim) -> Option<ArithOp> {
    match p {
        Prim::Plus => Some(ArithOp::Add),
        Prim::Minus => Some(ArithOp::Sub),
        Prim::Multiply => Some(ArithOp::Mul),
        Prim::Divide => Some(ArithOp::Div),
        _ => None,
    }
}

pub open spec fn cmp_op_of(p: Prim) -> Option<CmpOp> {
    match p {
        Prim::Greater => Some(CmpOp::Greater),
        Prim::GreaterEqual => Some(CmpOp::GreaterEqual),
        Prim::Less => Some(CmpOp::Less),
        Prim::LessEqual => Some(CmpOp::LessEqual),
        _ => None,
    }
}

/// The folding arithmetic forms on the values `vs`. Where some value is a
/// float the result is a float whose bits the host computes.
pub open spec fn sem_arith(op: ArithOp, vs: Seq<Value>, ms: Seq<FrameM>) -> Outcome {
    if !all_numbers(vs) {
        Outcome::Failed(ErrorKind::Type, ms)
    } else if needs_first(op) && vs.len() == 0 {
        Outcome::Failed(ErrorKind::Arity, ms)
    } else if any_float(vs) {
        Outcome::FloatDone(ms)
    } else {
        match int_result(op, vs) {
            Some(x) => Outcome::Done(Value::Integer(x), ms),
            None => Outcome::Failed(ErrorKind::Arithmetic, ms),
        }
    }
}

/// The ordering forms on the values `vs`.
pub open spec fn sem_compare(op: CmpOp, vs: Seq<Value>, ms: Seq<FrameM>) -> Outcome {
    if !all_numbers(vs) {
        Outcome::Failed(ErrorKind::Type, ms)
    } else if vs.len() == 0 {
        Outcome::Failed(ErrorKind::Arity, ms)
    } else if any_float(vs) {
        Outcome::Open
    } else {
        Outcome::Done(bool_value(first_against_rest(op, vs)), ms)
    }
}

/// The builtin `p` applied to the unevaluated arguments `items[1..]`.
pub open spec fn sem_builtin(ms: Seq<FrameM>, f: int, p: Prim, items: Seq<Value>, d: nat) -> Outcome
    decreases d, 4nat,
{
    let n = items.len();
    match p {
        Prim::Quote | Prim::Lazy => if n == 2 {
            Outcome::Done(items[1], ms)
        } else {
            Outcome::Failed(ErrorKind::Arity, ms)
        },
        Prim::Function => if n != 3 {
            Outcome::Failed(ErrorKind::Arity, ms)
        } else if !(items[1] is List) || !all_symbols(items[1]->List_0) {
            Outcome::Failed(ErrorKind::Type, ms)
        } else {
            Outcome::Done(Value::Function { params: items[1]->List_0, body: Box::new(items[2]) }, ms)
        },
        Prim::If => if n < 3 || n > 4 {
            Outcome::Failed(ErrorKind::Arity, ms)
        } else {
            match sem_eval(ms, f, items[1], d) {
                Outcome::Done(c, ms1) => if truthy(c) {
                    sem_eval(ms1, f, items[2], d)
                } else if n == 4 {
                    sem_eval(ms1, f, items[3], d)
                } else {
                    Outcome::Done(Value::Nil, ms1)
                },
                other => stop(other),
            }
        },
        Prim::Define => if n != 3 {
            Outcome::Failed(ErrorKind::Arity, ms)
        } else if !(items[1] is Symbol) {
            Outcome::Failed(ErrorKind::Type, ms)
        } else {
            match sem_eval(ms, f, items[2], d) {
                Outcome::Done(v, ms1) => Outcome::Done(
                    Value::Nil,
                    mbind(ms1, mroot(ms1, f), items[1]->Symbol_0, v),
                ),
                other => stop(other),
            }
        },
        Prim::Let => if n != 4 {
            Outcome::Failed(ErrorKind::Arity, ms)
        } else if !(items[1] is Symbol) {
            Outcome::Failed(ErrorKind::Type, ms)
        } else {
            match sem_eval(ms, f, items[2], d) {
                Outcome::Done(v, ms1) => sem_child(
                    ms1,
                    f,
                    seeded().insert(items[1]->Symbol_0, v),
                    items[3],
                    d,
                ),
                other => stop(other),
            }
        },
        Prim::AndThen => if n < 2 {
            Outcome::Failed(ErrorKind::Arity, ms)
        } else {
            match sem_args(ms, f, items, n - 1, d) {
                Outcomes::Done(vs, ms1) => Outcome::Done(vs.last(), ms1),
                Outcomes::Failed(k, ms1) => Outcome::Failed(k, ms1),
                Outcomes::Open => Outcome::Open,
            }
        },
        Prim::Plus | Prim::Minus | Prim::Multiply | Prim::Divide => match sem_args(
            ms,
            f,
            items,
            n - 1,
            d,
        ) {
            Outcomes::Done(vs, ms1) => sem_arith(arith_op_of(p)->0, vs, ms1),
            Outcomes::Failed(k, ms1) => Outcome::Failed(k, ms1),
            Outcomes::Open => Outcome::Open,
        },
        Prim::Greater | Prim::GreaterEqual | Prim::Less | Prim::LessEqual => match sem_args(
            ms,
            f,
            items,
            n - 1,
            d,
        ) {
            Outcomes::Done(vs, ms1) => sem_compare(cmp_op_of(p)->0, vs, ms1),
            Outcomes::Failed(k, ms1) => Outcome::Failed(k, ms1),
            Outcomes::Open => Outcome::Open,
        },
        Prim::Equal => match sem_args(ms, f, items, n - 1, d) {
            Outcomes::Done(vs, ms1) => if vs.len() == 0 {
                Outcome::Failed(ErrorKind::Arity, ms1)
            } else {
                Outcome::Done(
                    bool_value(forall|i: int| 0 <= i < vs.len() ==> #[trigger] vs[i] == vs[0]),
                    ms1,
                )
            },
            Outcomes::Failed(k, ms1) => Outcome::Failed(k, ms1),
            Outcomes::Open => Outcome::Open,
        },
        Prim::Index => if n != 3 {
            Outcome::Failed(ErrorKind::Arity, ms)
        } else {
            match sem_eval(ms, f, items[1], d) {
                Outcome::Done(a, ms1) => if !(a is Integer) {
                    Outcome::Failed(ErrorKind::Type, ms1)
                } else {
                    match sem_eval(ms1, f, items[2], d) {
                        Outcome::Done(l, ms2) => if !(l is List) {
                            Outcome::Failed(ErrorKind::Type, ms2)
                        } else if 0 <= int_of(a) < l->List_0.len() {
                            Outcome::Done(l->List_0[int_of(a) as int], ms2)
                        } else {
                            Outcome::Failed(ErrorKind::Bounds, ms2)
                        },
                        other => stop(other),
                    }
                },
                other => stop(other),
            }
        },
        Prim::Slice => if n != 4 {
            Outcome::Failed(ErrorKind::Arity, ms)
        } else {
            match sem_eval(ms, f, items[1], d) {
                Outcome::Done(a, ms1) => if !(a is Integer) {
                    Outcome::Failed(ErrorKind::Type, ms1)
                } else {
                    match sem_eval(ms1, f, items[2], d) {
                        Outcome::Done(b, ms2) => if !(b is Integer) {
                            Outcome::Failed(ErrorKind::Type, ms2)
                        } else {
                            match sem_eval(ms2, f, items[3], d) {
                                Outcome::Done(l, ms3) => if !(l is List) {
                                    Outcome::Failed(ErrorKind::Type, ms3)
                                } else if 0 <= int_of(a) && 0 <= int_of(b) && int_of(a) + int_of(b)
                                    <= l->List_0.len() {
                                    Outcome::Done(
                                        Value::List(
                                            l->List_0.subrange(
                                                int_of(a) as int,
                                                int_of(a) + int_of(b),
                                            ),
                                        ),
                                        ms3,
                                    )
                                } else {
                                    Outcome::Failed(ErrorKind::Bounds, ms3)
                                },
                                other => stop(other),
                            }
                        },
                        other => stop(other),
                    }
                },
                other => stop(other),
            }
        },
        Prim::MapList | Prim::Filter => if n != 3 {
            Outcome::Failed(ErrorKind::Arity, ms)
        } else {
            match sem_eval(ms, f, items[1], d) {
                Outcome::Done(fv, ms1) => match sem_eval(ms1, f, items[2], d) {
                    Outcome::Done(l, ms2) => if !(l is List) {
                        Outcome::Failed(ErrorKind::Type, ms2)
                    } else if d == 0 {
                        Outcome::Failed(ErrorKind::Limit, ms2)
                    } else {
                        let xs = l->List_0;
                        map_result(p, xs, sem_map(ms2, f, fv, xs, xs.len() as int, (d - 1) as nat))
                    },
                    other => stop(other),
                },
                other => stop(other),
            }
        },
        Prim::Range => if n != 3 {
            Outcome::Failed(ErrorKind::Arity, ms)
        } else {
            match sem_eval(ms, f, items[1], d) {
                Outcome::Done(a, ms1) => match sem_eval(ms1, f, items[2], d) {
                    Outcome::Done(b, ms2) => if !(a is Integer) || !(b is Integer) {
                        Outcome::Failed(ErrorKind::Type, ms2)
                    } else {
                        Outcome::Done(Value::List(range_values(int_of(a), int_of(b))), ms2)
                    },
                    other => stop(other),
                },
                other => stop(other),
            }
        },
        Prim::Reverse => if n != 2 {
            Outcome::Failed(ErrorKind::Arity, ms)
        } else {
            match sem_eval(ms, f, items[1], d) {
                Outcome::Done(a, ms1) => if !(a is List) {
                    Outcome::Failed(ErrorKind::Type, ms1)
                } else {
                    Outcome::Done(Value::List(a->List_0.reverse()), ms1)
                },
                other => stop(other),
            }
        },
        Prim::Append => if n != 3 {
            Outcome::Failed(ErrorKind::Arity, ms)
        } else {
            match sem_eval(ms, f, items[1], d) {
                Outcome::Done(a, ms1) => match sem_eval(ms1, f, items[2], d) {
                    Outcome::Done(b, ms2) => if !(a is List) {
                        Outcome::Failed(ErrorKind::Type, ms2)
                    } else {
                        Outcome::Done(Value::List(a->List_0.push(b)), ms2)
                    },
                    other => stop(other),
                },
                other => stop(other),
            }
        },
        Prim::Prepend => if n != 3 {
            Outcome::Failed(ErrorKind::Arity, ms)
        } else {
            match sem_eval(ms, f, items[1], d) {
                Outcome::Done(a, ms1) => match sem_eval(ms1, f, items[2], d) {
                    Outcome::Done(b, ms2) => if !(a is List) {
                        Outcome::Failed(ErrorKind::Type, ms2)
                    } else {
                        Outcome::Done(Value::List(seq![b] + a->List_0), ms2)
                    },
                    other => stop(other),
                },
                other => stop(other),
            }
        },
        Prim::TypeOf => if n != 2 {
            Outcome::Failed(ErrorKind::Arity, ms)
        } else {
            match sem_eval(ms, f, items[1], d) {
                Outcome::Done(a, ms1) => Outcome::Done(Value::Str(kind_name(a)), ms1),
                other => stop(other),
            }
        },
        Prim::Length => if n != 2 {
            Outcome::Failed(ErrorKind::Arity, ms)
        } else {
            match sem_eval(ms, f, items[1], d) {
                Outcome::Done(a, ms1) => match a {
                    Value::List(l) => if l.len() > i64::MAX {
                        Outcome::Failed(ErrorKind::Limit, ms1)
                    } else {
                        Outcome::Done(Value::Integer(l.len() as i64), ms1)
                    },
                    Value::Str(t) => if t.len() > i64::MAX {
                        Outcome::Failed(ErrorKind::Limit, ms1)
                    } else {
                        Outcome::Done(Value::Integer(t.len() as i64), ms1)
                    },
                    _ => Outcome::Failed(ErrorKind::Type, ms1),
                },
                other => stop(other),
            }
        },
        Prim::Exists => if n != 2 {
            Outcome::Failed(ErrorKind::Arity, ms)
        } else {
            match sem_eval(ms, f, items[1], d) {
                Outcome::Done(a, ms1) => if !(a is Symbol) {
                    Outcome::Failed(ErrorKind::Type, ms1)
                } else {
                    Outcome::Done(
                        bool_value(mchain(ms1, f, a->Symbol_0) is Some || mimports(ms1, f, a->Symbol_0) is Some),
                        ms1,
                    )
                },
                other => stop(other),
            }
        },
        Prim::Zip => if n != 3 {
            Outcome::Failed(ErrorKind::Arity, ms)
        } else {
            match sem_eval(ms, f, items[1], d) {
                Outcome::Done(a, ms1) => match sem_eval(ms1, f, items[2], d) {
                    Outcome::Done(b, ms2) => if !(a is List) || !(b is List) {
                        Outcome::Failed(ErrorKind::Type, ms2)
                    } else {
                        Outcome::Done(Value::List(zip_values(a->List_0, b->List_0)), ms2)
                    },
                    other => stop(other),
                },
                other => stop(other),
            }
        },
        Prim::Apply => if n != 3 {
            Outcome::Failed(ErrorKind::Arity, ms)
        } else {
            match sem_eval(ms, f, items[1], d) {
                Outcome::Done(a, ms1) => match sem_eval(ms1, f, items[2], d) {
                    Outcome::Done(b, ms2) => if !(b is List) {
                        Outcome::Failed(ErrorKind::Type, ms2)
                    } else if d == 0 {
                        Outcome::Failed(ErrorKind::Limit, ms2)
                    } else {
                        sem_list(ms2, f, quoted_call(a, b->List_0), (d - 1) as nat)
                    },
                    other => stop(other),
                },
                other => stop(other),
            }
        },
        Prim::Concat => match sem_args(ms, f, items, n - 1, d) {
            Outcomes::Done(vs, ms1) => if all_texts(vs, false) {
                Outcome::Done(Value::Str(joined(vs)), ms1)
            } else {
                Outcome::Failed(ErrorKind::Type, ms1)
            },
            Outcomes::Failed(k, ms1) => Outcome::Failed(k, ms1),
            Outcomes::Open => Outcome::Open,
        },
        Prim::Mod => if n != 3 {
            Outcome::Failed(ErrorKind::Arity, ms)
        } else {
            match sem_args(ms, f, items, 2, d) {
                Outcomes::Done(vs, ms1) => if !(is_number(vs[0]) && is_number(vs[1])) {
                    Outcome::Failed(ErrorKind::Type, ms1)
                } else if vs[0] is Float || vs[1] is Float {
                    Outcome::FloatDone(ms1)
                } else {
                    match int_of(vs[0]).checked_rem(int_of(vs[1])) {
                        Some(m) => Outcome::Done(Value::Integer(m), ms1),
                        None => Outcome::Failed(ErrorKind::Arithmetic, ms1),
                    }
                },
                Outcomes::Failed(k, ms1) => Outcome::Failed(k, ms1),
                Outcomes::Open => Outcome::Open,
            }
        },
        Prim::And | Prim::Or => if n < 2 {
            Outcome::Failed(ErrorKind::Arity, ms)
        } else {
            sem_andor(ms, f, items, p == Prim::And, 1, d)
        },
        Prim::Eval => if n < 2 {
            Outcome::Failed(ErrorKind::Arity, ms)
        } else if d == 0 {
            Outcome::Failed(ErrorKind::Limit, ms)
        } else if n == 2 {
            match sem_eval(ms, f, items[1], d) {
                Outcome::Done(v, ms1) => sem_eval(ms1, f, v, (d - 1) as nat),
                other => stop(other),
            }
        } else {
            sem_list(ms, f, items.drop_first(), (d - 1) as nat)
        },
        Prim::Export => if n != 2 {
            Outcome::Failed(ErrorKind::Arity, ms)
        } else if !(items[1] is Symbol) {
            Outcome::Failed(ErrorKind::Type, ms)
        } else if !(0 <= f < ms.len()) {
            Outcome::Open
        } else {
            let name = items[1]->Symbol_0;
            let v = msymbol(ms, f, name);
            match ms[f].local.get(exported_key()) {
                Some(Value::Table(t)) => Outcome::Done(
                    Value::Nil,
                    mbind(ms, f, exported_key(), Value::Table(t.insert(name, v))),
                ),
                None => Outcome::Done(
                    Value::Nil,
                    mbind(ms, f, exported_key(), Value::Table(Map::empty().insert(name, v))),
                ),
                _ => Outcome::Failed(ErrorKind::Type, ms),
            }
        },
        Prim::Module => if n != 1 {
            Outcome::Failed(ErrorKind::Arity, ms)
        } else {
            Outcome::Done(
                Value::Table(
                    Map::empty().insert("imported"@, msymbol(ms, f, imported_key())).insert(
                        "exported"@,
                        msymbol(ms, f, exported_key()),
                    ),
                ),
                ms,
            )
        },
        Prim::ToStr | Prim::ToSymbol | Prim::Print => if n != 2 {
            Outcome::Failed(ErrorKind::Arity, ms)
        } else {
            match sem_eval(ms, f, items[1], d) {
                Outcome::Done(a, ms1) => if p == Prim::Print {
                    Outcome::Done(Value::Nil, ms1)
                } else {
                    match shown(a) {
                        Some(t) => Outcome::Done(
                            if p == Prim::ToStr {
                                Value::Str(t)
                            } else {
                                Value::Symbol(t)
                            },
                            ms1,
                        ),
                        None => Outcome::Open,
                    }
                },
                other => stop(other),
            }
        },
        Prim::ConcatSymbol => if all_texts(items.skip(1), true) {
            Outcome::Done(Value::Symbol(joined(items.skip(1))), ms)
        } else {
            Outcome::Failed(ErrorKind::Type, ms)
        },
        Prim::LetMany => if n != 3 {
            Outcome::Failed(ErrorKind::Arity, ms)
        } else if !(items[1] is List) {
            Outcome::Failed(ErrorKind::Type, ms)
        } else if ms.len() >= frame_cap() {
            Outcome::Failed(ErrorKind::Limit, ms)
        } else {
            match sem_let_many(
                ms.push(FrameM { parent: Some(f as usize), local: seeded() }),
                ms.len() as int,
                items[1]->List_0,
                items[2],
                d,
            ) {
                Outcome::Done(v, ms2) => Outcome::Done(v, ms2.subrange(0, ms.len() as int)),
                Outcome::Failed(k, ms2) => Outcome::Failed(k, ms2.subrange(0, ms.len() as int)),
                Outcome::FloatDone(ms2) => Outcome::FloatDone(ms2.subrange(0, ms.len() as int)),
                Outcome::Open => Outcome::Open,
            }
        },
        Prim::For => if n != 4 {
            Outcome::Failed(ErrorKind::Arity, ms)
        } else if !(items[1] is Symbol) {
            Outcome::Failed(ErrorKind::Type, ms)
        } else {
            match sem_eval(ms, f, items[2], d) {
                Outcome::Done(l, ms1) => if !(l is List) {
                    Outcome::Failed(ErrorKind::Type, ms1)
                } else {
                    sem_for(ms1, f, items[1]->Symbol_0, l->List_0, items[3], 0, d)
                },
                other => stop(other),
            }
        },
        Prim::ZipWith => if n != 4 {
            Outcome::Failed(ErrorKind::Arity, ms)
        } else {
            match sem_eval(ms, f, items[1], d) {
                Outcome::Done(fv, ms1) => match sem_eval(ms1, f, items[2], d) {
                    Outcome::Done(a, ms2) => if !(a is List) {
                        Outcome::Failed(ErrorKind::Type, ms2)
                    } else {
                        match sem_eval(ms2, f, items[3], d) {
                            Outcome::Done(b, ms3) => if !(b is List) {
                                Outcome::Failed(ErrorKind::Type, ms3)
                            } else if d == 0 {
                                Outcome::Failed(ErrorKind::Limit, ms3)
                            } else {
                                list_outcome(
                                    sem_zip_with(
                                        ms3,
                                        f,
                                        fv,
                                        a->List_0,
                                        b->List_0,
                                        min_len(a->List_0, b->List_0),
                                        (d - 1) as nat,
                                    ),
                                )
                            },
                            other => stop(other),
                        }
                    },
                    other => stop(other),
                },
                other => stop(other),
            }
        },
        Prim::Tangle => if n != 3 {
            Outcome::Failed(ErrorKind::Arity, ms)
        } else {
            match sem_eval(ms, f, items[1], d) {
                Outcome::Done(w, ms1) => match sem_eval(ms1, f, items[2], d) {
                    Outcome::Done(l, ms2) => if !(l is List) {
                        Outcome::Failed(ErrorKind::Type, ms2)
                    } else {
                        Outcome::Done(Value::List(tangled(w, l->List_0, l->List_0.len() as int)), ms2)
                    },
                    other => stop(other),
                },
                other => stop(other),
            }
        },
        Prim::Import => if n != 2 {
            Outcome::Failed(ErrorKind::Arity, ms)
        } else if !(items[1] is Str) {
            Outcome::Failed(ErrorKind::Type, ms)
        } else {
            Outcome::Open
        },
        Prim::Split => if n != 3 {
            Outcome::Failed(ErrorKind::Arity, ms)
        } else {
            match sem_eval(ms, f, items[1], d) {
                Outcome::Done(by, ms1) => if !(by is Str) {
                    Outcome::Failed(ErrorKind::Type, ms1)
                } else {
                    match sem_eval(ms1, f, items[2], d) {
                        Outcome::Done(t, ms2) => if !(t is Str) {
                            Outcome::Failed(ErrorKind::Type, ms2)
                        } else {
                            Outcome::Done(split_value(t->Str_0, by->Str_0), ms2)
                        },
                        other => stop(other),
                    }
                },
                other => stop(other),
            }
        },
        Prim::Fold => if n != 4 {
            Outcome::Failed(ErrorKind::Arity, ms)
        } else {
            match sem_eval(ms, f, items[1], d) {
                Outcome::Done(fv, ms1) => match sem_eval(ms1, f, items[2], d) {
                    Outcome::Done(acc, ms2) => match sem_eval(ms2, f, items[3], d) {
                        Outcome::Done(l, ms3) => if !(l is List) {
                            Outcome::Failed(ErrorKind::Type, ms3)
                        } else if d == 0 {
                            Outcome::Failed(ErrorKind::Limit, ms3)
                        } else {
                            let xs = l->List_0;
                            sem_fold(ms3, f, fv, acc, xs, xs.len() as int, (d - 1) as nat)
                        },
                        other => stop(other),
                    },
                    other => stop(other),
                },
                other => stop(other),
            }
        },
        _ => Outcome::Open,
    }
}

/// The call of `fv` on the values `vs`, each quoted so that it reaches
/// `fv` as it is.
pub open spec fn quoted_call(fv: Value, vs: Seq<Value>) -> Seq<Value> {
    seq![fv] + Seq::new(vs.len(), |i: int| Value::List(seq![Value::Builtin(Prim::Quote), vs[i]]))
}

/// `fv` called on each of `xs[0..m]` in turn; the results.
pub open spec fn sem_map(ms: Seq<FrameM>, f: int, fv: Value, xs: Seq<Value>, m: int, d: nat) -> Outcomes
    decreases d, 7nat, m,
{
    if m <= 0 || m > xs.len() {
        Outcomes::Done(seq![], ms)
    } else {
        match sem_map(ms, f, fv, xs, m - 1, d) {
            Outcomes::Done(rs, ms1) => match sem_list(ms1, f, quoted_call(fv, seq![xs[m - 1]]), d) {
                Outcome::Done(v, ms2) => Outcomes::Done(rs.push(v), ms2),
                Outcome::Failed(k, ms2) => Outcomes::Failed(k, ms2),
                Outcome::Open | Outcome::FloatDone(_) => Outcomes::Open,
            },
            other => other,
        }
    }
}

pub open spec fn min_len(xs: Seq<Value>, ys: Seq<Value>) -> int {
    if xs.len() <= ys.len() {
        xs.len() as int
    } else {
        ys.len() as int
    }
}

/// `fv` called on the elements of `xs` and `ys` at each index below `m`;
/// the results.
pub open spec fn sem_zip_with(ms: Seq<FrameM>, f: int, fv: Value, xs: Seq<Value>, ys: Seq<Value>, m: int, d: nat) -> Outcomes
    decreases d, 7nat, m,
{
    if m <= 0 || m > min_len(xs, ys) {
        Outcomes::Done(seq![], ms)
    } else {
        match sem_zip_with(ms, f, fv, xs, ys, m - 1, d) {
            Outcomes::Done(rs, ms1) => match sem_list(ms1, f, quoted_call(fv, seq![xs[m - 1], ys[m - 1]]), d) {
                Outcome::Done(v, ms2) => Outcomes::Done(rs.push(v), ms2),
                Outcome::Failed(k, ms2) => Outcomes::Failed(k, ms2),
                Outcome::Open | Outcome::FloatDone(_) => Outcomes::Open,
            },
            other => other,
        }
    }
}

pub proof fn lemma_zip_with_stop(ms: Seq<FrameM>, f: int, fv: Value, xs: Seq<Value>, ys: Seq<Value>, j: int, m: int, d: nat)
    requires
        1 <= j <= m <= min_len(xs, ys),
        !(sem_zip_with(ms, f, fv, xs, ys, j, d) is Done),
    ensures
        sem_zip_with(ms, f, fv, xs, ys, m, d) == sem_zip_with(ms, f, fv, xs, ys, j, d),
    decreases m - j,
{
    if m > j {
        lemma_zip_with_stop(ms, f, fv, xs, ys, j, m - 1, d);
    }
}

pub open spec fn list_outcome(o: Outcomes) -> Outcome {
    match o {
        Outcomes::Done(rs, ms) => Outcome::Done(Value::List(rs), ms),
        Outcomes::Failed(k, ms) => Outcome::Failed(k, ms),
        Outcomes::Open => Outcome::Open,
    }
}

/// `fv` called on the value so far and each of `xs[0..m]` in turn,
/// starting from `acc`.
pub open spec fn sem_fold(ms: Seq<FrameM>, f: int, fv: Value, acc: Value, xs: Seq<Value>, m: int, d: nat) -> Outcome
    decreases d, 7nat, m,
{
    if m <= 0 || m > xs.len() {
        Outcome::Done(acc, ms)
    } else {
        match sem_fold(ms, f, fv, acc, xs, m - 1, d) {
            Outcome::Done(a, ms1) => sem_list(ms1, f, quoted_call(fv, seq![a, xs[m - 1]]), d),
            other => stop(other),
        }
    }
}

/// What `map` (or `filter`) gives once `f` has been called on each
/// element of `xs`.
pub open spec fn map_result(p: Prim, xs: Seq<Value>, o: Outcomes) -> Outcome {
    match o {
        Outcomes::Done(rs, ms) => Outcome::Done(
            Value::List(
                if p == Prim::MapList {
                    rs
                } else {
                    kept(xs, rs, xs.len() as int)
                },
            ),
            ms,
        ),
        Outcomes::Failed(k, ms) => Outcome::Failed(k, ms),
        Outcomes::Open => Outcome::Open,
    }
}

/// The integers from `a` up to, not including, `b`.
pub open spec fn range_values(a: i64, b: i64) -> Seq<Value> {
    Seq::new(if a < b { (b - a) as nat } else { 0 }, |k: int| Value::Integer((a + k) as i64))
}

/// Pairs of the elements of `a` and `b` at the same index, as far as the
/// shorter goes.
pub open spec fn zip_values(a: Seq<Value>, b: Seq<Value>) -> Seq<Value> {
    Seq::new(
        if a.len() <= b.len() { a.len() } else { b.len() },
        |i: int| Value::List(seq![a[i], b[i]]),
    )
}

/// What `split` gives: the pieces of `t` between the occurrences of `by`,
/// as strings.
pub open spec fn split_value(t: Seq<char>, by: Seq<char>) -> Value {
    Value::List(Seq::new(split_of(t, by).len(), |i: int| Value::Str(split_of(t, by)[i])))
}

/// The elements of `xs[0..m]` whose result in `rs` is not nil.
pub open spec fn kept(xs: Seq<Value>, rs: Seq<Value>, m: int) -> Seq<Value>
    decreases m,
{
    if m <= 0 {
        seq![]
    } else if truthy(rs[m - 1]) {
        kept(xs, rs, m - 1).push(xs[m - 1])
    } else {
        kept(xs, rs, m - 1)
    }
}

/// The forms `forms[0..m]` evaluated in turn in frame `f`; the value of the
/// last, nil where there is none. The first failure stops the run.
pub open spec fn sem_forms(ms: Seq<FrameM>, f: int, forms: Seq<Value>, m: int, d: nat) -> Outcome
    decreases m,
{
    if m <= 0 || m > forms.len() {
        Outcome::Done(Value::Nil, ms)
    } else {
        match sem_forms(ms, f, forms, m - 1, d) {
            Outcome::Done(_, ms1) => sem_eval(ms1, f, forms[m - 1], d),
            Outcome::FloatDone(ms1) => sem_eval(ms1, f, forms[m - 1], d),
            other => other,
        }
    }
}

/// The exec result `r`, with the frames `fin` after it, is what the
/// specification `o` describes.
pub open spec fn agrees(o: Outcome, fin: Seq<Frame>, r: Result<crate::value::Expression, crate::error::EvalError>) -> bool {
    match o {
        Outcome::Done(v, ms) => fm(fin) == ms && r is Ok && r->Ok_0.model() == v,
        Outcome::Failed(k, ms) => fm(fin) == ms && r is Err && r->Err_0.kind == k,
        Outcome::FloatDone(ms) => fm(fin) == ms && r is Ok && r->Ok_0 is Float,
        Outcome::Open => true,
    }
}

pub open spec fn agrees_all(
    o: Outcomes,
    fin: Seq<Frame>,
    r: Result<Vec<crate::value::Expression>, crate::error::EvalError>,
) -> bool {
    match o {
        Outcomes::Done(vs, ms) => fm(fin) == ms && r is Ok && crate::value::models(r->Ok_0@) == vs,
        Outcomes::Failed(k, ms) => fm(fin) == ms && r is Err && r->Err_0.kind == k,
        Outcomes::Open => true,
    }
}

/// Once evaluating the arguments has stopped (failed, or reached what the
/// specification leaves open), evaluating more does not change that.
pub proof fn lemma_args_stop(ms: Seq<FrameM>, f: int, items: Seq<Value>, j: int, m: int, d: nat)
    requires
        1 <= j <= m < items.len(),
        !(sem_args(ms, f, items, j, d) is Done),
    ensures
        sem_args(ms, f, items, m, d) == sem_args(ms, f, items, j, d),
    decreases m - j,
{
    if m > j {
        lemma_args_stop(ms, f, items, j, m - 1, d);
    }
}

pub proof fn lemma_map_stop(ms: Seq<FrameM>, f: int, fv: Value, xs: Seq<Value>, j: int, m: int, d: nat)
    requires
        1 <= j <= m <= xs.len(),
        !(sem_map(ms, f, fv, xs, j, d) is Done),
    ensures
        sem_map(ms, f, fv, xs, m, d) == sem_map(ms, f, fv, xs, j, d),
    decreases m - j,
{
    if m > j {
        lemma_map_stop(ms, f, fv, xs, j, m - 1, d);
    }
}

pub proof fn lemma_fold_stop(ms: Seq<FrameM>, f: int, fv: Value, acc: Value, xs: Seq<Value>, j: int, m: int, d: nat)
    requires
        1 <= j <= m <= xs.len(),
        !(sem_fold(ms, f, fv, acc, xs, j, d) is Done),
        !(sem_fold(ms, f, fv, acc, xs, j, d) is FloatDone),
    ensures
        sem_fold(ms, f, fv, acc, xs, m, d) == sem_fold(ms, f, fv, acc, xs, j, d),
    decreases m - j,
{
    if m > j {
        lemma_fold_stop(ms, f, fv, acc, xs, j, m - 1, d);
    }
}

/// Once a run has stopped, the forms after do not change its outcome.
pub proof fn lemma_forms_stop(ms: Seq<FrameM>, f: int, forms: Seq<Value>, j: int, m: int, d: nat)
    requires
        0 <= j <= m <= forms.len(),
        !(sem_forms(ms, f, forms, j, d) is Done),
        !(sem_forms(ms, f, forms, j, d) is FloatDone),
    ensures
        sem_forms(ms, f, forms, m, d) == sem_forms(ms, f, forms, j, d),
    decreases m - j,
{
    if m > j {
        lemma_forms_stop(ms, f, forms, j, m - 1, d);
    }
}

/// The builtins whose outcome this specification describes.
pub open spec fn covered(p: Prim) -> bool {
    match p {
        Prim::Quote | Prim::Lazy | Prim::Function | Prim::If | Prim::Define | Prim::Let
        | Prim::AndThen | Prim::Plus | Prim::Minus | Prim::Multiply | Prim::Divide
        | Prim::Greater | Prim::GreaterEqual | Prim::Less | Prim::LessEqual | Prim::Equal
        | Prim::Index | Prim::Slice | Prim::MapList | Prim::Filter | Prim::Fold | Prim::Split
        | Prim::Range | Prim::Reverse | Prim::Append | Prim::Prepend | Prim::TypeOf
        | Prim::Length | Prim::Exists | Prim::Zip | Prim::Apply | Prim::Concat | Prim::Mod
        | Prim::And | Prim::Or | Prim::Eval | Prim::Export | Prim::Module | Prim::ToStr
        | Prim::ToSymbol | Prim::Print | Prim::ConcatSymbol | Prim::LetMany | Prim::For
        | Prim::ZipWith | Prim::Tangle | Prim::Import => true,
        _ => false,
    }
}

pub proof fn lemma_uncovered_open(ms: Seq<FrameM>, f: int, p: Prim, items: Seq<Value>, d: nat)
    requires
        !covered(p),
    ensures
        sem_builtin(ms, f, p, items, d) is Open,
{
}

/// What is kept of the first `m` elements depends only on the first `m`
/// results.
pub proof fn lemma_kept_prefix(xs: Seq<Value>, a: Seq<Value>, b: Seq<Value>, m: int)
    requires
        0 <= m <= a.len(),
        m < b.len(),
        a.len() == m,
        b.subrange(0, m) == a,
    ensures
        kept(xs, a, m) == kept(xs, b, m),
        kept(xs, b, m + 1) == if truthy(b[m]) {
            kept(xs, b, m).push(xs[m])
        } else {
            kept(xs, b, m)
        },
    decreases m,
{
    if m > 0 {
        assert(b.subrange(0, m - 1) == a.subrange(0, m - 1));
        assert(a[m - 1] == b[m - 1]);
        lemma_kept_same(xs, a, b, m);
    }
}

proof fn lemma_kept_same(xs: Seq<Value>, a: Seq<Value>, b: Seq<Value>, m: int)
    requires
        0 <= m <= a.len(),
        m <= b.len(),
        forall|j: int| 0 <= j < m ==> #[trigger] a[j] == b[j],
    ensures
        kept(xs, a, m) == kept(xs, b, m),
    decreases m,
{
    if m > 0 {
        lemma_kept_same(xs, a, b, m - 1);
    }
}

/// The frames a module runs in: those open now (which it cannot reach),
/// a fresh outermost frame holding the registry, and a child of it.
pub open spec fn module_start(ms: Seq<FrameM>) -> Seq<FrameM> {
    ms.push(FrameM { parent: None, local: crate::builtin::registry_map() }).push(
        FrameM { parent: Some(ms.len() as usize), local: seeded() },
    )
}

/// The export table that frame `m` of `ms` holds: empty where it has none,
/// `None` where it holds something other than a table.
pub open spec fn exports_at(ms: Seq<FrameM>, m: int) -> Option<Map<Seq<char>, Value>> {
    match ms[m].local.get(exported_key()) {
        Some(Value::Table(t)) => Some(t),
        None => Some(Map::empty()),
        _ => None,
    }
}

/// Running the forms of a module: its top-level forms evaluated in turn in
/// the fresh child frame of `module_start`; the outcome's value is the
/// table that frame exports, and the frames open before are left as they
/// were.
pub open spec fn sem_module(ms: Seq<FrameM>, forms: Seq<Value>, d: nat) -> Outcome {
    if ms.len() >= frame_cap() - 2 {
        Outcome::Failed(ErrorKind::Limit, ms)
    } else {
        let m = ms.len() as int + 1;
        match sem_forms(module_start(ms), m, forms, forms.len() as int, d) {
            Outcome::Done(_, ms2) => match exports_at(ms2, m) {
                Some(t) => Outcome::Done(Value::Table(t), ms),
                None => Outcome::Failed(ErrorKind::Type, ms),
            },
            Outcome::FloatDone(ms2) => match exports_at(ms2, m) {
                Some(t) => Outcome::Done(Value::Table(t), ms),
                None => Outcome::Failed(ErrorKind::Type, ms),
            },
            Outcome::Failed(k, _) => Outcome::Failed(k, ms),
            Outcome::Open => Outcome::Open,
        }
    }
}

/// The table that frame `f` imports into: empty where it has none.
pub open spec fn imports_at(ms: Seq<FrameM>, f: int) -> Map<Seq<char>, Value> {
    match ms[f].local.get(imported_key()) {
        Some(Value::Table(t)) => t,
        _ => Map::empty(),
    }
}

} // verus!

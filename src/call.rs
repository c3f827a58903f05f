use vstd::prelude::*;

use crate::value::{lemma_models, models, Expression, Value};

verus! {

/// The placeholder `_`: an argument written so leaves its parameter open.
pub open spec fn is_hole(v: Value) -> bool {
    v == Value::Symbol("_"@)
}

pub open spec fn has_hole(args: Seq<Value>) -> bool {
    exists|i: int| 0 <= i < args.len() && is_hole(#[trigger] args[i])
}

/// The parameters that the first `i` arguments leave open, in order.
pub open spec fn open_prefix(params: Seq<Value>, args: Seq<Value>, i: int) -> Seq<Value>
    decreases i,
{
    if i <= 0 {
        seq![]
    } else {
        open_prefix(params, args, i - 1) + if is_hole(args[i - 1]) {
            seq![params[i - 1]]
        } else {
            seq![]
        }
    }
}

/// The parameters of a partial application: those at a placeholder, then
/// those past the last supplied argument.
pub open spec fn open_params(params: Seq<Value>, args: Seq<Value>) -> Seq<Value> {
    open_prefix(params, args, args.len() as int) + params.subrange(
        args.len() as int,
        params.len() as int,
    )
}

/// The arguments that a partial application passes on: each supplied one,
/// a placeholder replaced by its parameter's name, then the names of the
/// parameters past the last supplied argument.
pub open spec fn filled(params: Seq<Value>, args: Seq<Value>) -> Seq<Value> {
    Seq::new(
        args.len(),
        |i: int|
            if is_hole(args[i]) {
                params[i]
            } else {
                args[i]
            },
    ) + params.subrange(args.len() as int, params.len() as int)
}

/// A partial application of the callable written `head`: a function of the
/// open parameters whose body calls `head` again with every argument, those
/// supplied now first.
pub open spec fn partial_model(head: Value, params: Seq<Value>, args: Seq<Value>) -> Value {
    Value::Function {
        params: open_params(params, args),
        body: Box::new(Value::List(seq![head] + filled(params, args))),
    }
}

pub fn is_hole_exec(e: &Expression) -> (r: bool)
    ensures
        r == is_hole(e.model()),
{
    proof {
        reveal_strlit("_");
    }
    match e {
        Expression::Symbol(s) => {
            let t = s.as_str();
            if t.unicode_len() != 1 {
                return false;
            }
            let c = t.get_char(0);
            if c == '_' {
                assert(s@ =~= "_"@);
                true
            } else {
                false
            }
        },
        _ => false,
    }
}

/// Builds the partial application of `call[0]` to the arguments
/// `call[1..]`, for a function with parameters `params`.
pub fn make_partial(call: &Vec<Expression>, params: &Vec<Expression>) -> (r: Expression)
    requires
        1 <= call@.len(),
        call@.len() - 1 <= params@.len(),
    ensures
        r.model() == partial_model(
            call@[0].model(),
            models(params@),
            models(call@).drop_first(),
        ),
{
    let ghost ps = models(params@);
    let ghost args = models(call@).drop_first();
    proof {
        lemma_models(params@);
        lemma_models(call@);
    }
    let k = call.len() - 1;
    let mut open: Vec<Expression> = Vec::new();
    let mut body: Vec<Expression> = Vec::new();
    body.push(call[0].clone());
    let mut i: usize = 0;
    while i < k
        invariant
            i <= k,
            k == call@.len() - 1,
            k <= params@.len(),
            ps == models(params@),
            args == models(call@).drop_first(),
            args.len() == k,
            ps.len() == params@.len(),
            forall|j: int| 0 <= j < params@.len() ==> #[trigger] ps[j] == params@[j].model(),
            forall|j: int| 0 <= j < k ==> #[trigger] args[j] == call@[j + 1].model(),
            models(open@) == open_prefix(ps, args, i as int),
            body@.len() == i + 1,
            body@[0].model() == call@[0].model(),
            forall|j: int|
                0 <= j < i ==> #[trigger] body@[j + 1].model() == if is_hole(args[j]) {
                    ps[j]
                } else {
                    args[j]
                },
        decreases k - i,
    {
        let ghost before = open@;
        if is_hole_exec(&call[i + 1]) {
            open.push(params[i].clone());
            body.push(params[i].clone());
            proof {
                lemma_models(before);
                lemma_models(open@);
                assert(models(open@) =~= models(before) + seq![ps[i as int]]);
            }
        } else {
            body.push(call[i + 1].clone());
            assert(models(open@) =~= models(before) + seq![]);
        }
        i = i + 1;
    }
    let ghost mid = open@;
    let ghost mid_body = body@;
    let mut j: usize = k;
    while j < params.len()
        invariant
            k <= j <= params@.len(),
            ps == models(params@),
            ps.len() == params@.len(),
            forall|t: int| 0 <= t < params@.len() ==> #[trigger] ps[t] == params@[t].model(),
            open@.len() == mid.len() + (j - k),
            forall|t: int| 0 <= t < mid.len() ==> #[trigger] open@[t] == mid[t],
            forall|t: int| k <= t < j ==> #[trigger] open@[mid.len() + t - k].model() == ps[t],
            body@.len() == mid_body.len() + (j - k),
            mid_body.len() == k + 1,
            forall|t: int| 0 <= t < mid_body.len() ==> #[trigger] body@[t] == mid_body[t],
            forall|t: int| k <= t < j ==> #[trigger] body@[t + 1].model() == ps[t],
        decreases params@.len() - j,
    {
        open.push(params[j].clone());
        body.push(params[j].clone());
        j = j + 1;
    }
    proof {
        lemma_models(open@);
        lemma_models(mid);
        lemma_models(body@);
        assert(models(open@) =~= open_params(ps, args)) by {
            assert forall|t: int| 0 <= t < open@.len() implies models(open@)[t] == open_params(ps, args)[t] by {
                if t < mid.len() {
                    assert(open@[t] == mid[t]);
                } else {
                    assert(open@[mid.len() + (t - mid.len() + k) - k].model() == ps[t - mid.len() + k]);
                }
            }
        }
        assert(models(body@) =~= seq![call@[0].model()] + filled(ps, args)) by {
            assert forall|t: int| 0 <= t < body@.len() implies models(body@)[t] == (seq![call@[0].model()] + filled(ps, args))[t] by {
                if t == 0 {
                    assert(body@[0] == mid_body[0]);
                } else if t <= k {
                    assert(body@[t] == mid_body[t]);
                    assert(body@[(t - 1) + 1] == mid_body[(t - 1) + 1]);
                } else {
                    assert(body@[(t - 1) + 1].model() == ps[t - 1]);
                }
            }
        }
    }
    let ghost body_model = models(body@);
    let ghost open_model = models(open@);
    let inner = Expression::List(body);
    assert(inner.model() == Value::List(body_model));
    let r = Expression::Function { arguments: open, body: Box::new(inner) };
    assert(r.model() == Value::Function { params: open_model, body: Box::new(Value::List(body_model)) });
    r
}

} // verus!

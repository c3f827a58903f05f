use vstd::prelude::*;

use crate::call::{filled, has_hole, open_params, open_prefix, partial_model};
use crate::env::{local_of, reserved, root_of, Env};
use crate::eval::settled;
use crate::value::Value;

verus! {

/// Scoping: evaluating anything in a frame that is not the outermost one
/// leaves every binding of that frame as it was, but for its import and
/// export tables. A `let` (or `let*`, `for`, a function call) binds in a
/// frame of its own that is gone when it returns, so its names never reach
/// the expressions evaluated after it in the same frame.
pub proof fn lemma_bindings_do_not_leak(a: Env, b: Env, frame: usize, name: Seq<char>)
    requires
        a.wf(),
        frame < a.frames@.len(),
        settled(a, b, frame),
        frame != root_of(a.frames@, frame as int),
        !reserved(name),
    ensures
        local_of(b.frames@, frame as int).get(name) == local_of(a.frames@, frame as int).get(name),
        b.frames@.len() == a.frames@.len(),
{
}

/// Scoping, for the other frames: evaluating in `frame` changes no frame
/// but `frame` itself and the outermost frame above it (where `define`
/// writes).
pub proof fn lemma_other_frames_untouched(a: Env, b: Env, frame: usize, other: int)
    requires
        settled(a, b, frame),
        0 <= other < a.frames@.len(),
        other != frame,
        other != root_of(a.frames@, frame as int),
    ensures
        b.frames@[other] == a.frames@[other],
{
}

/// No placeholder leaves exactly the first parameters out.
proof fn lemma_no_hole_prefix(params: Seq<Value>, args: Seq<Value>, i: int)
    requires
        0 <= i <= args.len(),
        !has_hole(args),
    ensures
        open_prefix(params, args, i) == Seq::<Value>::empty(),
    decreases i,
{
    if i > 0 {
        lemma_no_hole_prefix(params, args, i - 1);
        assert(!crate::call::is_hole(args[i - 1]));
        assert(open_prefix(params, args, i) =~= Seq::<Value>::empty());
    }
}

/// Partial application: applying a function of `n` parameters to `k`
/// arguments (`0 < k < n`, none of them `_`) gives a function of the
/// `n - k` parameters not yet supplied, whose body calls the original
/// callable with the `k` arguments followed by those parameters, in order.
/// Supplying the remaining `n - k` arguments to it therefore supplies all
/// `n` to the original callable, in the order a single call would.
pub proof fn lemma_partial_application(head: Value, params: Seq<Value>, args: Seq<Value>)
    requires
        0 < args.len() < params.len(),
        !has_hole(args),
    ensures
        partial_model(head, params, args) == (Value::Function {
            params: params.subrange(args.len() as int, params.len() as int),
            body: Box::new(
                Value::List(
                    seq![head] + args + params.subrange(args.len() as int, params.len() as int),
                ),
            ),
        }),
{
    let k = args.len() as int;
    lemma_no_hole_prefix(params, args, k);
    assert(open_params(params, args) =~= params.subrange(k, params.len() as int));
    let front = Seq::new(
        args.len(),
        |i: int|
            if crate::call::is_hole(args[i]) {
                params[i]
            } else {
                args[i]
            },
    );
    assert forall|i: int| 0 <= i < k implies front[i] == args[i] by {
        assert(!crate::call::is_hole(args[i]));
    }
    assert(front =~= args);
    assert(filled(params, args) =~= args + params.subrange(k, params.len() as int));
    assert(seq![head] + filled(params, args) =~= seq![head] + args + params.subrange(
        k,
        params.len() as int,
    ));
}

} // verus!

use vstd::prelude::*;
use vstd::string::StringExecFns;

use crate::bindings::{bindings_of, Bindings};
use crate::env::{exported_key, imported_key, local_of, seeded, seeded_bindings, Env};
use crate::value::{all_prims, true_value, Expression, Prim, Value};

verus! {

/// `m` binds the name of `p` to a builtin of that name.
pub open spec fn binds_form(m: Map<Seq<char>, Value>, p: Prim) -> bool {
    &&& m.contains_key(p.spec_name())
    &&& m[p.spec_name()] is Builtin
    &&& m[p.spec_name()]->Builtin_0.spec_name() == p.spec_name()
}

/// The first `i` forms of the registry, each under its name, over the
/// reserved tables.
pub open spec fn registry_prefix(i: int) -> Map<Seq<char>, Value>
    decreases i,
{
    if i <= 0 {
        seeded()
    } else {
        registry_prefix(i - 1).insert(all_prims()[i - 1].spec_name(), Value::Builtin(all_prims()[i - 1]))
    }
}

/// What the registry binds: every form, then `t`.
pub open spec fn registry_map() -> Map<Seq<char>, Value> {
    registry_prefix(all_prims().len() as int).insert("t"@, true_value())
}

/// The bindings of the registry: each builtin form under its name, and `t`.
pub fn registry() -> (r: Bindings)
    ensures
        bindings_of(r) == registry_map(),
        bindings_of(r).contains_key("t"@),
        bindings_of(r)["t"@] == true_value(),
        forall|j: int| 0 <= j < all_prims().len() ==> binds_form(bindings_of(r), #[trigger] all_prims()[j]),
        bindings_of(r).get(exported_key()) == Some(Value::Table(Map::empty())),
        bindings_of(r).get(imported_key()) == Some(Value::Table(Map::empty())),
{
    let mut b = seeded_bindings();
    let all = Prim::all();
    let mut i: usize = 0;
    while i < all.len()
        invariant
            i <= all@.len(),
            all@ == all_prims(),
            forall|j: int| 0 <= j < i ==> binds_form(bindings_of(b), #[trigger] all_prims()[j]),
            bindings_of(b).get(exported_key()) == Some(Value::Table(Map::empty())),
            bindings_of(b).get(imported_key()) == Some(Value::Table(Map::empty())),
            bindings_of(b) == registry_prefix(i as int),
        decreases all@.len() - i,
    {
        let p = all[i];
        proof {
            p.lemma_not_reserved();
            reveal_strlit("__EXPORTED");
            reveal_strlit("__IMPORTED");
            assert(p.spec_name() != exported_key());
            assert(p.spec_name() != imported_key());
        }
        b.insert(String::from_str(p.name()), Expression::Builtin(p));
        i = i + 1;
    }
    let ghost before = bindings_of(b);
    proof {
        reveal_strlit("t");
        reveal_strlit("__EXPORTED");
        reveal_strlit("__IMPORTED");
        assert("t"@[0] != exported_key()[0]);
        assert("t"@[0] != imported_key()[0]);
    }
    b.insert(String::from_str("t"), Expression::truth());
    assert forall|j: int| 0 <= j < all_prims().len() implies binds_form(bindings_of(b), #[trigger] all_prims()[j]) by {
        all_prims()[j].lemma_not_t();
        assert(binds_form(before, all_prims()[j]));
    }
    b
}

/// A fresh interpreter state: one outermost frame that holds the registry.
pub fn std_lib() -> (r: Env)
    ensures
        r.wf(),
        r.frames@.len() == 1,
        r.frames@[0].parent is None,
        local_of(r.frames@, 0).contains_key("t"@),
        local_of(r.frames@, 0)["t"@] == true_value(),
        forall|j: int| 0 <= j < all_prims().len() ==> binds_form(local_of(r.frames@, 0), #[trigger] all_prims()[j]),
        local_of(r.frames@, 0).get(exported_key()) == Some(Value::Table(Map::empty())),
        local_of(r.frames@, 0).get(imported_key()) == Some(Value::Table(Map::empty())),
{
    let mut env = Env::new();
    let b = registry();
    let ghost reg = bindings_of(b);
    env.extend(0, b);
    assert forall|j: int| 0 <= j < all_prims().len() implies binds_form(local_of(env.frames@, 0), #[trigger] all_prims()[j]) by {
        assert(binds_form(reg, all_prims()[j]));
    }
    env
}

} // verus!

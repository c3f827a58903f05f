use vstd::prelude::*;

use crate::value::{Expression, Value};

verus! {

/// A mapping from names to values, kept in a `hashbrown` hash map.
#[verifier::external_body]
#[derive(Debug, PartialEq)]
pub struct Bindings {
    map: hashbrown::HashMap<String, Expression>,
}

/// What a `Bindings` holds: each name with the model of its value.
pub uninterp spec fn bindings_of(b: Bindings) -> Map<Seq<char>, Value>;

impl Clone for Bindings {
    /// Relies on `hashbrown::HashMap::clone`: the copy holds the same entries.
    #[verifier::external_body]
    fn clone(&self) -> (r: Bindings)
        ensures
            bindings_of(r) == bindings_of(*self),
    {
        Bindings { map: self.map.clone() }
    }
}

impl Bindings {
    /// Relies on `hashbrown::HashMap::new`: the new map is empty.
    #[verifier::external_body]
    pub(crate) fn new() -> (r: Bindings)
        ensures
            bindings_of(r) =~= Map::empty(),
    {
        Bindings { map: hashbrown::HashMap::new() }
    }

    /// Relies on `hashbrown::HashMap::get`: the value bound to `key`, if any,
    /// copied out.
    #[verifier::external_body]
    pub(crate) fn get(&self, key: &str) -> (r: Option<Expression>)
        ensures
            r is Some <==> bindings_of(*self).contains_key(key@),
            r is Some ==> r->0.model() == bindings_of(*self)[key@],
    {
        self.map.get(key).cloned()
    }

    /// Relies on `hashbrown::HashMap::insert`: `key` is bound to `value`,
    /// replacing what it was bound to before.
    #[verifier::external_body]
    pub(crate) fn insert(&mut self, key: String, value: Expression)
        ensures
            bindings_of(*final(self)) == bindings_of(*old(self)).insert(key@, value.model()),
    {
        self.map.insert(key, value);
    }

    /// Relies on `hashbrown::HashMap::extend`: every entry of `other` is
    /// inserted, the entries of `other` winning over those already there.
    #[verifier::external_body]
    pub(crate) fn extend(&mut self, other: Bindings)
        ensures
            bindings_of(*final(self)) == bindings_of(*old(self)).union_prefer_right(
                bindings_of(other),
            ),
    {
        self.map.extend(other.map);
    }

    /// Relies on `hashbrown::HashMap::iter`: each entry once, in an order
    /// that the map does not fix.
    #[verifier::external_body]
    pub(crate) fn entries(&self) -> (r: Vec<(String, Expression)>)
        ensures
            r@.len() == bindings_of(*self).dom().len(),
            forall|i: int|
                0 <= i < r@.len() ==> {
                    &&& #[trigger] bindings_of(*self).contains_key(r@[i].0@)
                    &&& bindings_of(*self)[r@[i].0@] == r@[i].1.model()
                },
            forall|i: int, j: int| 0 <= i < j < r@.len() ==> r@[i].0@ != r@[j].0@,
    {
        self.map.iter().map(|(k, v)| (k.clone(), v.clone())).collect()
    }

    /// Relies on `hashbrown::HashMap`'s `==`: two maps are equal when they
    /// bind the same names to equal values. `Expression`'s `==` compares
    /// structurally, so equal values are those with equal models.
    #[verifier::external_body]
    pub(crate) fn same_as(&self, other: &Bindings) -> (r: bool)
        ensures
            r == (bindings_of(*self) == bindings_of(*other)),
    {
        self.map == other.map
    }
}

} // verus!

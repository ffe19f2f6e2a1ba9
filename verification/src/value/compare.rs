//! Equality and ordering of values, as the standard operators see them.

use vstd::prelude::*;
use vstd::std_specs::cmp::PartialEqSpecImpl;
use std::cmp::Ordering;
use crate::error::Error;
use crate::value::codex::{same, Codex, Value};
use crate::value::journey::Journey;

verus! {

impl Codex {
    /// How this map compares with `rhs`. A map is equal to the maps that
    /// hold the same and is neither less nor greater than anything; with
    /// every other value it does not compare at all.
    pub fn compare(&self, rhs: &Value) -> (order: Result<Option<Ordering>, Error>)
        ensures
            same(Value::Codex(*self), *rhs) ==> order == Ok::<Option<Ordering>, Error>(
                Some(Ordering::Equal),
            ),
            !same(Value::Codex(*self), *rhs) ==> order == Ok::<Option<Ordering>, Error>(None),
    {
        match self.is_equal(rhs) {
            Ok(true) => Ok(Some(Ordering::Equal)),
            Ok(false) => Ok(None),
            Err(e) => Err(e),
        }
    }
}

impl PartialEq for Value {
    fn eq(&self, other: &Value) -> (equal: bool) {
        self.is_same(other)
    }
}

impl Eq for Value {

}

impl PartialEqSpecImpl for Value {
    open spec fn obeys_eq_spec() -> bool {
        true
    }

    open spec fn eq_spec(&self, other: &Value) -> bool {
        same(*self, *other)
    }
}

impl PartialEq for Codex {
    fn eq(&self, other: &Codex) -> (equal: bool) {
        self.is_same_map(other)
    }
}

impl Eq for Codex {

}

impl PartialEqSpecImpl for Codex {
    open spec fn obeys_eq_spec() -> bool {
        true
    }

    open spec fn eq_spec(&self, other: &Codex) -> bool {
        same(Value::Codex(*self), Value::Codex(*other))
    }
}

impl PartialEq for Journey {
    fn eq(&self, other: &Journey) -> (equal: bool) {
        self.same_instance(other)
    }
}

impl Eq for Journey {

}

impl PartialEqSpecImpl for Journey {
    open spec fn obeys_eq_spec() -> bool {
        true
    }

    open spec fn eq_spec(&self, other: &Journey) -> bool {
        self.identity() == other.identity()
    }
}

} // verus!

//! Identifiers that address registered spawn prototypes.

use vstd::prelude::*;
use vstd::std_specs::cmp::PartialEqSpecImpl;
use vstd::std_specs::convert::FromSpecImpl;

verus! {

/// A string-backed identifier of a registered prototype.
///
/// Two keys are interchangeable exactly when their names are equal; the name
/// is never normalised or validated.
#[derive(Debug, Hash)]
pub struct SpawnKey(String);

impl View for SpawnKey {
    type V = Seq<char>;

    closed spec fn view(&self) -> Seq<char> {
        self.0@
    }
}

impl SpawnKey {
    /// Makes the key whose name is `name`, unchanged.
    pub fn new(name: String) -> (key: Self)
        ensures
            key@ == name@,
    {
        SpawnKey(name)
    }

    /// The name that this key was made from.
    pub fn name(&self) -> (name: &str)
        ensures
            name@ == self@,
    {
        self.0.as_str()
    }
}

impl Clone for SpawnKey {
    fn clone(&self) -> (copy: Self)
        ensures
            copy@ == self@,
    {
        SpawnKey(self.0.clone())
    }
}

impl PartialEq for SpawnKey {
    fn eq(&self, other: &Self) -> (same: bool) {
        self.0 == other.0
    }
}

impl PartialEqSpecImpl for SpawnKey {
    open spec fn obeys_eq_spec() -> bool {
        true
    }

    open spec fn eq_spec(&self, other: &Self) -> bool {
        self@ == other@
    }
}

impl Eq for SpawnKey {

}

impl From<String> for SpawnKey {
    fn from(name: String) -> (key: Self)
        ensures
            key@ == name@,
    {
        SpawnKey(name)
    }
}

impl FromSpecImpl<String> for SpawnKey {
    open spec fn obeys_from_spec() -> bool {
        true
    }

    closed spec fn from_spec(name: String) -> Self {
        SpawnKey(name)
    }
}

impl<'a> From<&'a str> for SpawnKey {
    fn from(name: &'a str) -> (key: Self)
        ensures
            key@ == name@,
    {
        SpawnKey(name.to_owned())
    }
}

impl<'a> FromSpecImpl<&'a str> for SpawnKey {
    open spec fn obeys_from_spec() -> bool {
        false
    }

    closed spec fn from_spec(name: &'a str) -> Self {
        arbitrary()
    }
}

} // verus!

//! The registry of spawn prototypes.

use crate::bundle::Bundle;
use crate::error::SpawnError;
use crate::key::SpawnKey;
use crate::model;
use crate::model::RegistryView;
use vstd::prelude::*;

verus! {

/// The hash map of `bevy_utils` that holds the prototypes by name.
#[verifier::external_body]
pub struct PrototypeMap {
    inner: bevy_utils::HashMap<String, Bundle>,
}

/// What a prototype map holds: each name that was inserted, with the bundle
/// that was inserted last under it.
pub uninterp spec fn prototype_map_contents(map: PrototypeMap) -> Map<Seq<char>, Bundle>;

/// `HashMap::default` of `hashbrown`, as `bevy_utils` names it: the map that
/// it makes holds nothing.
#[verifier::external_body]
fn prototype_map_new() -> (map: PrototypeMap)
    ensures
        prototype_map_contents(map) == (Map::<Seq<char>, Bundle>::empty()),
{
    PrototypeMap { inner: bevy_utils::HashMap::default() }
}

/// `HashMap::insert` of `hashbrown`: afterwards the map holds `bundle` under
/// `name` and is otherwise as before; the bundle that stood under `name`
/// before, if there was one, is returned.
#[verifier::external_body]
fn prototype_map_insert(map: &mut PrototypeMap, name: String, bundle: Bundle) -> (previous: Option<
    Bundle,
>)
    ensures
        prototype_map_contents(*final(map)) == prototype_map_contents(*old(map)).insert(
            name@,
            bundle,
        ),
        previous == (if prototype_map_contents(*old(map)).dom().contains(name@) {
            Some(prototype_map_contents(*old(map))[name@])
        } else {
            None::<Bundle>
        }),
{
    map.inner.insert(name, bundle)
}

/// `HashMap::get` of `hashbrown`: the bundle that the map holds under `name`,
/// if it holds one.
#[verifier::external_body]
fn prototype_map_get<'a>(map: &'a PrototypeMap, name: &str) -> (found: Option<&'a Bundle>)
    ensures
        found == (if prototype_map_contents(*map).dom().contains(name@) {
            Some(&prototype_map_contents(*map)[name@])
        } else {
            None::<&Bundle>
        }),
{
    map.inner.get(name)
}

/// `HashMap::keys` of `hashbrown`, each key cloned: every name that the map
/// holds, once, in an order that is not specified.
#[verifier::external_body]
fn prototype_map_names(map: &PrototypeMap) -> (names: Vec<String>)
    ensures
        forall|i: int, j: int|
            0 <= i < j < names.len() ==> (#[trigger] names[i])@ != (#[trigger] names[j])@,
        forall|i: int|
            0 <= i < names.len() ==> prototype_map_contents(*map).dom().contains(
                (#[trigger] names[i])@,
            ),
        forall|name: Seq<char>| #[trigger]
            prototype_map_contents(*map).dom().contains(name) ==> exists|i: int|
                0 <= i < names.len() && (#[trigger] names[i])@ == name,
{
    map.inner.keys().cloned().collect()
}

/// All registered prototypes, by key.
///
/// Keys are unique: a key is registered at most once, and an entry is never
/// removed or replaced.
pub struct Spawnables {
    prototypes: PrototypeMap,
}

impl View for Spawnables {
    type V = RegistryView;

    closed spec fn view(&self) -> RegistryView {
        prototype_map_contents(self.prototypes).map_values(|bundle: Bundle| bundle@)
    }
}

impl Spawnables {
    /// A registry without entries.
    pub fn new() -> (registry: Self)
        ensures
            registry@ == RegistryView::empty(),
    {
        let registry = Spawnables { prototypes: prototype_map_new() };
        assert(registry@ =~= RegistryView::empty());
        registry
    }

    /// Whether a prototype is registered under a key of this name.
    pub fn contains(&self, key: &SpawnKey) -> (found: bool)
        ensures
            found == self@.dom().contains(key@),
    {
        prototype_map_get(&self.prototypes, key.name()).is_some()
    }

    /// Registers `spawnable` under `key` and returns the key.
    ///
    /// A key whose name is already registered is refused, and the registry
    /// stays as it was: an entry is never overwritten.
    pub fn register(&mut self, key: SpawnKey, spawnable: Bundle) -> (registered: Result<
        SpawnKey,
        SpawnError,
    >)
        ensures
            match model::register(old(self)@, key@, spawnable@) {
                Ok(grown) => {
                    &&& registered matches Ok(same)
                    &&& same@ == key@
                    &&& final(self)@ == grown
                },
                Err(fault) => {
                    &&& registered matches Err(error)
                    &&& error@ == fault
                    &&& final(self)@ == old(self)@
                },
            },
    {
        if self.contains(&key) {
            return Err(SpawnError::DuplicateKey(key));
        }
        let name = key.name().to_owned();
        let _ = prototype_map_insert(&mut self.prototypes, name, spawnable);
        assert(self@ =~= old(self)@.insert(key@, spawnable@));
        Ok(key)
    }

    /// The registered keys, each once, in an order that is not specified.
    pub fn keys(&self) -> (keys: Vec<SpawnKey>)
        ensures
            forall|i: int, j: int|
                0 <= i < j < keys.len() ==> (#[trigger] keys[i])@ != (#[trigger] keys[j])@,
            forall|i: int| 0 <= i < keys.len() ==> self@.dom().contains((#[trigger] keys[i])@),
            forall|name: Seq<char>| #[trigger]
                self@.dom().contains(name) ==> exists|i: int|
                    0 <= i < keys.len() && (#[trigger] keys[i])@ == name,
    {
        let names = prototype_map_names(&self.prototypes);
        let mut keys: Vec<SpawnKey> = Vec::new();
        let mut i: usize = 0;
        while i < names.len()
            invariant
                i <= names.len(),
                keys.len() == i,
                forall|j: int| 0 <= j < i ==> (#[trigger] keys[j])@ == names[j]@,
            decreases names.len() - i,
        {
            keys.push(SpawnKey::new(names[i].clone()));
            i = i + 1;
        }
        assert forall|name: Seq<char>| #[trigger] self@.dom().contains(name) implies exists|i: int|
            0 <= i < keys.len() && (#[trigger] keys[i])@ == name by {
            let at = choose|i: int| 0 <= i < names.len() && (#[trigger] names[i])@ == name;
            assert(keys[at]@ == name);
        }
        keys
    }

    /// A fresh copy of the prototype registered under `key`, if there is one.
    pub fn fetch(&self, key: &SpawnKey) -> (found: Option<Bundle>)
        ensures
            match found {
                Some(bundle) => self@.dom().contains(key@) && bundle@ == self@[key@],
                None => !self@.dom().contains(key@),
            },
    {
        match prototype_map_get(&self.prototypes, key.name()) {
            Some(bundle) => Some(bundle.duplicate()),
            None => None,
        }
    }
}

impl Default for Spawnables {
    fn default() -> (registry: Self)
        ensures
            registry@ == RegistryView::empty(),
    {
        Spawnables::new()
    }
}

} // verus!

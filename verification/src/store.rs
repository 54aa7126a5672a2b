//! The entity store that the engine materialises into.

use crate::bundle::{Bundle, SpawnChildren};
use crate::model::{attach, detach, empty_entity, has_pending, install, pending, pending_below};
use crate::model::{EntityView, StoreView};
use vstd::prelude::*;

verus! {

/// The handle of an entity: its position in the store that issued it.
#[derive(Clone, Copy, Debug, PartialEq, Eq, Structural)]
pub struct EntityId(pub usize);

impl View for EntityId {
    type V = nat;

    open spec fn view(&self) -> nat {
        self.0 as nat
    }
}

/// The handles in `entities` as the model has them.
pub open spec fn handles(entities: Seq<EntityId>) -> Seq<nat> {
    entities.map_values(|entity: EntityId| entity@)
}

/// What the store holds of one entity.
struct EntityRecord {
    components: Vec<u64>,
    ledger: Option<SpawnChildren>,
    parent: Option<EntityId>,
    children: Vec<EntityId>,
}

/// The owner of all entities, with their components, their pending ledgers
/// and their place in the hierarchy. Entities are created and never removed.
pub struct EntityStore {
    entities: Vec<EntityRecord>,
}

/// A copy of what a store held of one entity at some moment.
pub(crate) struct Snapshot {
    record: EntityRecord,
}

/// The model of one record.
spec fn record_view(record: EntityRecord) -> EntityView {
    EntityView {
        components: record.components@.to_set(),
        ledger: match record.ledger {
            Some(ledger) => Some(ledger@),
            None => None,
        },
        parent: match record.parent {
            Some(parent) => Some(parent@),
            None => None,
        },
        children: record.children@.map_values(|child: EntityId| child@),
    }
}

impl View for EntityStore {
    type V = StoreView;

    closed spec fn view(&self) -> StoreView {
        self.entities@.map_values(|record: EntityRecord| record_view(record))
    }
}

impl View for Snapshot {
    type V = EntityView;

    closed spec fn view(&self) -> EntityView {
        record_view(self.record)
    }
}

/// A copy of `source` that holds the same.
fn copy_record(source: &EntityRecord) -> (copy: EntityRecord)
    ensures
        record_view(copy) == record_view(*source),
{
    let components = source.components.clone();
    assert(components@ =~= source.components@);
    let ledger = match &source.ledger {
        Some(ledger) => Some(ledger.duplicate()),
        None => None,
    };
    let children = source.children.clone();
    assert(children@ =~= source.children@);
    let copy = EntityRecord { components, ledger, parent: source.parent, children };
    assert(record_view(copy) =~= record_view(*source));
    copy
}

/// Whether `component` occurs in `components`.
fn holds(components: &Vec<u64>, component: u64) -> (found: bool)
    ensures
        found == components@.contains(component),
{
    let mut i: usize = 0;
    while i < components.len()
        invariant
            i <= components.len(),
            forall|j: int| 0 <= j < i ==> components[j] != component,
        decreases components.len() - i,
    {
        if components[i] == component {
            return true;
        }
        i = i + 1;
    }
    false
}

impl EntityStore {
    /// A store without entities.
    pub fn new() -> (store: Self)
        ensures
            store@ == StoreView::empty(),
    {
        let store = EntityStore { entities: Vec::new() };
        assert(store@ =~= StoreView::empty());
        store
    }

    /// The number of entities.
    pub fn len(&self) -> (n: usize)
        ensures
            n == self@.len(),
    {
        self.entities.len()
    }

    /// Whether the store holds `entity` and `component` is installed on it.
    pub fn contains(&self, entity: EntityId, component: u64) -> (found: bool)
        ensures
            found == (entity@ < self@.len() && self@[entity@ as int].components.contains(component)),
    {
        if entity.0 < self.entities.len() {
            holds(&self.entities[entity.0].components, component)
        } else {
            false
        }
    }

    /// The components installed on `entity`, each once; `None` if the store
    /// does not hold `entity`.
    pub fn components(&self, entity: EntityId) -> (found: Option<Vec<u64>>)
        ensures
            match found {
                Some(components) => {
                    &&& entity@ < self@.len()
                    &&& components@.to_set() == self@[entity@ as int].components
                    &&& components@.no_duplicates()
                },
                None => entity@ >= self@.len(),
            },
    {
        if entity.0 < self.entities.len() {
            let source = &self.entities[entity.0].components;
            let mut components: Vec<u64> = Vec::new();
            let mut i: usize = 0;
            while i < source.len()
                invariant
                    i <= source.len(),
                    components@.no_duplicates(),
                    components@.to_set() == source@.take(i as int).to_set(),
                decreases source.len() - i,
            {
                proof {
                    source@.lemma_take_succ_push(i as int);
                    source@.take(i as int).lemma_push_to_set_commute(source@[i as int]);
                }
                if !holds(&components, source[i]) {
                    proof {
                        components@.lemma_push_to_set_commute(source@[i as int]);
                    }
                    components.push(source[i]);
                } else {
                    assert(components@.to_set().insert(source@[i as int]) =~= components@.to_set());
                }
                i = i + 1;
            }
            assert(source@.take(source.len() as int) =~= source@);
            Some(components)
        } else {
            None
        }
    }

    /// The children of `entity`, oldest first; `None` if the store does not
    /// hold `entity`.
    pub fn children(&self, entity: EntityId) -> (found: Option<Vec<EntityId>>)
        ensures
            match found {
                Some(children) => {
                    &&& entity@ < self@.len()
                    &&& handles(children@) == self@[entity@ as int].children
                },
                None => entity@ >= self@.len(),
            },
    {
        if entity.0 < self.entities.len() {
            let source = &self.entities[entity.0].children;
            let mut children: Vec<EntityId> = Vec::new();
            let mut i: usize = 0;
            while i < source.len()
                invariant
                    i <= source.len(),
                    children@ == source@.take(i as int),
                decreases source.len() - i,
            {
                proof {
                    source@.lemma_take_succ_push(i as int);
                }
                children.push(source[i]);
                i = i + 1;
            }
            assert(source@.take(source.len() as int) =~= source@);
            Some(children)
        } else {
            None
        }
    }

    /// The parent of `entity`; `None` if it has none or the store does not
    /// hold `entity`.
    pub fn parent(&self, entity: EntityId) -> (found: Option<EntityId>)
        ensures
            match found {
                Some(parent) => entity@ < self@.len() && self@[entity@ as int].parent == Some(
                    parent@,
                ),
                None => entity@ >= self@.len() || self@[entity@ as int].parent is None,
            },
    {
        if entity.0 < self.entities.len() {
            self.entities[entity.0].parent
        } else {
            None
        }
    }

    /// Whether the store holds `entity` and it carries a pending ledger.
    pub fn has_ledger(&self, entity: EntityId) -> (found: bool)
        ensures
            found == (entity@ < self@.len() && self@[entity@ as int].ledger is Some),
    {
        if entity.0 < self.entities.len() {
            self.entities[entity.0].ledger.is_some()
        } else {
            false
        }
    }

    /// Whether any entity carries a pending ledger.
    pub fn should_spawn_children(&self) -> (any: bool)
        ensures
            any == has_pending(self@),
    {
        let mut i: usize = 0;
        while i < self.entities.len()
            invariant
                i <= self.entities.len(),
                forall|j: int| 0 <= j < i ==> (#[trigger] self@[j]).ledger is None,
            decreases self.entities.len() - i,
        {
            if self.entities[i].ledger.is_some() {
                assert(self@[i as int].ledger is Some);
                return true;
            }
            i = i + 1;
        }
        false
    }

    /// The entities that carry a pending ledger, in the order of their
    /// creation.
    pub fn pending(&self) -> (found: Vec<EntityId>)
        ensures
            handles(found@) == pending(self@),
    {
        let mut found: Vec<EntityId> = Vec::new();
        let mut i: usize = 0;
        while i < self.entities.len()
            invariant
                i <= self.entities.len(),
                handles(found@) == pending_below(self@, i as nat),
            decreases self.entities.len() - i,
        {
            if self.entities[i].ledger.is_some() {
                found.push(EntityId(i));
                assert(handles(found@) =~= pending_below(self@, i as nat).push(i as nat));
            }
            i = i + 1;
        }
        found
    }

    /// Creates an entity without components, ledger, parent or children.
    pub(crate) fn spawn_empty(&mut self) -> (entity: EntityId)
        ensures
            entity@ == old(self)@.len(),
            final(self)@ == old(self)@.push(empty_entity()),
    {
        let entity = EntityId(self.entities.len());
        let record = EntityRecord {
            components: Vec::new(),
            ledger: None,
            parent: None,
            children: Vec::new(),
        };
        assert(record_view(record) =~= empty_entity());
        self.entities.push(record);
        assert(self@ =~= old(self)@.push(empty_entity()));
        entity
    }

    /// Inserts `bundle` on `entity`: its components are merged into those of
    /// the entity, and its ledger, if it carries one, replaces the entity's.
    pub(crate) fn insert(&mut self, entity: EntityId, bundle: Bundle)
        requires
            entity@ < old(self)@.len(),
        ensures
            final(self)@ == install(old(self)@, entity@ as int, bundle@),
    {
        let Bundle { components, children } = bundle;
        let record = &mut self.entities[entity.0];
        let ghost before = record.components@;
        let mut i: usize = 0;
        while i < components.len()
            invariant
                i <= components.len(),
                record.components@.to_set() == before.to_set().union(
                    components@.take(i as int).to_set(),
                ),
                record.ledger == old(self).entities[entity@ as int].ledger,
                record.parent == old(self).entities[entity@ as int].parent,
                record.children == old(self).entities[entity@ as int].children,
            decreases components.len() - i,
        {
            proof {
                components@.lemma_take_succ_push(i as int);
                components@.take(i as int).lemma_push_to_set_commute(components@[i as int]);
            }
            if !holds(&record.components, components[i]) {
                proof {
                    record.components@.lemma_push_to_set_commute(components@[i as int]);
                }
                record.components.push(components[i]);
            }
            assert(record.components@.to_set() =~= before.to_set().union(
                components@.take(i + 1).to_set(),
            ));
            i = i + 1;
        }
        assert(components@.take(components.len() as int) =~= components@);
        if children.is_some() {
            record.ledger = children;
        }
        assert(self@ =~= install(old(self)@, entity@ as int, bundle@));
    }

    /// Detaches the ledger of `entity` and hands it out.
    pub(crate) fn take_ledger(&mut self, entity: EntityId) -> (ledger: Option<SpawnChildren>)
        requires
            entity@ < old(self)@.len(),
        ensures
            match ledger {
                Some(taken) => old(self)@[entity@ as int].ledger == Some(taken@),
                None => old(self)@[entity@ as int].ledger is None,
            },
            final(self)@ == detach(old(self)@, entity@ as int),
    {
        let record = &mut self.entities[entity.0];
        let mut ledger: Option<SpawnChildren> = None;
        std::mem::swap(&mut record.ledger, &mut ledger);
        assert(self@ =~= detach(old(self)@, entity@ as int));
        ledger
    }

    /// Makes `child` the last child of `parent`.
    pub(crate) fn add_child(&mut self, parent: EntityId, child: EntityId)
        requires
            parent@ < old(self)@.len(),
            child@ < old(self)@.len(),
            parent@ != child@,
        ensures
            final(self)@ == attach(old(self)@, parent@ as int, child@ as int),
    {
        let record = &mut self.entities[parent.0];
        record.children.push(child);
        assert(record.children@.map_values(|c: EntityId| c@) =~= old(self).entities[parent@ as int].children@.map_values(
            |c: EntityId| c@,
        ).push(child@));
        let record = &mut self.entities[child.0];
        record.parent = Some(parent);
        assert(self@ =~= attach(old(self)@, parent@ as int, child@ as int));
    }

    /// A copy that holds the same entities.
    pub fn duplicate(&self) -> (copy: Self)
        ensures
            copy@ == self@,
    {
        let mut entities: Vec<EntityRecord> = Vec::new();
        let mut i: usize = 0;
        while i < self.entities.len()
            invariant
                i <= self.entities.len(),
                entities.len() == i,
                forall|j: int|
                    0 <= j < i ==> record_view(#[trigger] entities[j]) == record_view(
                        self.entities[j],
                    ),
            decreases self.entities.len() - i,
        {
            entities.push(copy_record(&self.entities[i]));
            i = i + 1;
        }
        let copy = EntityStore { entities };
        assert(copy@ =~= self@);
        copy
    }

    /// A copy of what the store holds of `entity`; `None` if it does not
    /// hold `entity`.
    pub(crate) fn snapshot(&self, entity: EntityId) -> (saved: Option<Snapshot>)
        ensures
            match saved {
                Some(copy) => entity@ < self@.len() && copy@ == self@[entity@ as int],
                None => entity@ >= self@.len(),
            },
    {
        if entity.0 < self.entities.len() {
            Some(Snapshot { record: copy_record(&self.entities[entity.0]) })
        } else {
            None
        }
    }

    /// Copies of what the store holds of each entity in `touched`.
    pub(crate) fn snapshots(&self, touched: &Vec<EntityId>) -> (saved: Vec<Option<Snapshot>>)
        ensures
            saved.len() == touched.len(),
            forall|i: int|
                0 <= i < touched.len() ==> match #[trigger] saved[i] {
                    Some(copy) => touched[i]@ < self@.len() && copy@ == self@[touched[i]@ as int],
                    None => touched[i]@ >= self@.len(),
                },
    {
        let mut saved: Vec<Option<Snapshot>> = Vec::new();
        let mut i: usize = 0;
        while i < touched.len()
            invariant
                i <= touched.len(),
                saved.len() == i,
                forall|j: int|
                    0 <= j < i ==> match #[trigger] saved[j] {
                        Some(copy) => touched[j]@ < self@.len() && copy@ == self@[touched[j]@ as int],
                        None => touched[j]@ >= self@.len(),
                    },
            decreases touched.len() - i,
        {
            saved.push(self.snapshot(touched[i]));
            i = i + 1;
        }
        saved
    }

    /// Undoes what a failed operation has done. The operation started on the
    /// store `before`, has since appended entities and changed some of those
    /// in `touched`, of which `saved` holds the copies taken at the start.
    pub(crate) fn rollback(
        &mut self,
        base: usize,
        touched: &Vec<EntityId>,
        saved: Vec<Option<Snapshot>>,
        Ghost(before): Ghost<StoreView>,
    )
        requires
            base == before.len(),
            before.len() <= old(self)@.len(),
            saved.len() == touched.len(),
            forall|i: int|
                0 <= i < touched.len() ==> match #[trigger] saved[i] {
                    Some(copy) => touched[i]@ < before.len() && copy@ == before[touched[i]@ as int],
                    None => touched[i]@ >= before.len(),
                },
            forall|e: int|
                0 <= e < before.len() ==> {
                    ||| (#[trigger] old(self)@[e]) == before[e]
                    ||| exists|i: int| 0 <= i < touched.len() && (#[trigger] touched[i])@ == e
                },
        ensures
            final(self)@ == before,
    {
        let ghost partial = self@;
        self.entities.truncate(base);
        assert(self@ =~= partial.take(before.len() as int));
        let ghost copies = saved@;
        let mut at: usize = 0;
        for snapshot in it: saved
            invariant
                at == it.index(),
                copies == it.seq(),
                copies.len() == touched.len(),
                self@.len() == before.len(),
                forall|i: int|
                    0 <= i < touched.len() ==> match #[trigger] copies[i] {
                        Some(copy) => touched[i]@ < before.len() && copy@ == before[touched[i]@ as int],
                        None => touched[i]@ >= before.len(),
                    },
                forall|e: int|
                    0 <= e < before.len() ==> {
                        ||| (#[trigger] self@[e]) == before[e]
                        ||| exists|i: int|
                            it.index() <= i < touched.len() && (#[trigger] touched[i])@ == e
                    },
        {
            let ghost k = it.index() as int;
            let ghost current = self@;
            match snapshot {
                Some(copy) => {
                    let entity = touched[at];
                    assert(copies[k] == Some(copy));
                    self.entities.set(entity.0, copy.record);
                    assert(self@ =~= current.update(entity@ as int, copy@));
                },
                None => {
                    assert(copies[k] is None);
                },
            }
            assert forall|e: int| 0 <= e < before.len() implies {
                ||| (#[trigger] self@[e]) == before[e]
                ||| exists|i: int| k + 1 <= i < touched.len() && (#[trigger] touched[i])@ == e
            } by {
                if self@[e] != before[e] {
                    assert(current[e] != before[e]);
                    let i = choose|i: int| k <= i < touched.len() && (#[trigger] touched[i])@ == e;
                    assert(i != k);
                }
            }
            at = at + 1;
        }
        assert(self@ =~= before);
    }
}

impl Default for EntityStore {
    fn default() -> (store: Self)
        ensures
            store@ == StoreView::empty(),
    {
        EntityStore::new()
    }
}

} // verus!

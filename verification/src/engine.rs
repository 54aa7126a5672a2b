//! The breadth-first engine that drains pending-children ledgers.

use crate::bundle::{ChildRequest, SpawnChildren};
use crate::error::SpawnError;
use crate::model;
use crate::model::{Fault, StoreView};
use crate::registry::Spawnables;
use crate::store::{handles, EntityId, EntityStore};
use vstd::prelude::*;

verus! {

/// Whether every handle in `entities` is one of a store of `len` entities.
pub open spec fn all_below(entities: Seq<EntityId>, len: nat) -> bool {
    forall|i: int| 0 <= i < entities.len() ==> (#[trigger] entities[i])@ < len
}

/// Whether `after` holds every entity of `before`, and holds it unchanged
/// unless it is one of `touched`.
pub open spec fn same_outside(before: StoreView, after: StoreView, touched: Seq<EntityId>) -> bool {
    &&& before.len() <= after.len()
    &&& forall|e: int|
        0 <= e < before.len() ==> {
            ||| (#[trigger] after[e]) == before[e]
            ||| exists|i: int| 0 <= i < touched.len() && (#[trigger] touched[i])@ == e
        }
}

/// Whether `after` is `before` with handles appended that are all at least
/// `floor`.
pub open spec fn extended(before: Seq<EntityId>, after: Seq<EntityId>, floor: nat) -> bool {
    &&& before.len() <= after.len()
    &&& forall|i: int| 0 <= i < before.len() ==> (#[trigger] after[i]) == before[i]
    &&& forall|i: int| before.len() <= i < after.len() ==> (#[trigger] after[i])@ >= floor
}

/// Why no entity can be created for `request`, if anything stands against it.
pub(crate) fn refused(store: &EntityStore, registry: &Spawnables, request: &ChildRequest) -> (found:
    Option<SpawnError>)
    ensures
        match model::refusal(store@, registry@, request@) {
            Some(fault) => found matches Some(error) && error@ == fault,
            None => found is None,
        },
{
    let known = match request {
        ChildRequest::Inline(_) => None,
        ChildRequest::ByKey(key) => if registry.contains(key) {
            None
        } else {
            Some(SpawnError::InvalidKey(key.clone()))
        },
        ChildRequest::ByKeyWith(key, _) => if registry.contains(key) {
            None
        } else {
            Some(SpawnError::InvalidKey(key.clone()))
        },
    };
    if known.is_some() {
        known
    } else if store.len() == usize::MAX {
        Some(SpawnError::StoreFull)
    } else {
        None
    }
}

/// Resolves `request` and inserts what it yields on `entity`.
pub(crate) fn populate(
    store: &mut EntityStore,
    registry: &Spawnables,
    entity: EntityId,
    request: ChildRequest,
) -> (done: Result<(), SpawnError>)
    requires
        entity@ < old(store)@.len(),
    ensures
        match model::missing_key(registry@, request@) {
            Some(name) => {
                &&& done matches Err(error)
                &&& error@ == Fault::InvalidKey(name)
                &&& final(store)@ == old(store)@
            },
            None => {
                &&& done is Ok
                &&& final(store)@ == model::populate(
                    old(store)@,
                    registry@,
                    entity@ as int,
                    request@,
                )
            },
        },
{
    match request {
        ChildRequest::Inline(bundle) => {
            store.insert(entity, bundle);
            Ok(())
        },
        ChildRequest::ByKey(key) => match registry.fetch(&key) {
            Some(prototype) => {
                store.insert(entity, prototype);
                Ok(())
            },
            None => Err(SpawnError::InvalidKey(key)),
        },
        ChildRequest::ByKeyWith(key, extra) => match registry.fetch(&key) {
            Some(prototype) => {
                store.insert(entity, prototype);
                store.insert(entity, extra);
                Ok(())
            },
            None => Err(SpawnError::InvalidKey(key)),
        },
    }
}

/// Drains the detached ledger of `owner`: each request, in request order,
/// gets a new entity, which is populated, attached to `owner` and appended to
/// `next` if it now carries a ledger of its own.
fn drain(
    store: &mut EntityStore,
    registry: &Spawnables,
    owner: EntityId,
    ledger: SpawnChildren,
    next: &mut Vec<EntityId>,
) -> (done: Result<(), SpawnError>)
    requires
        owner@ < old(store)@.len(),
        all_below(old(next)@, old(store)@.len()),
    ensures
        match model::drain(old(store)@, registry@, owner@, ledger@, 0, handles(old(next)@)) {
            Ok((drained, queued)) => {
                &&& done is Ok
                &&& final(store)@ == drained
                &&& handles(final(next)@) == queued
            },
            Err(fault) => done matches Err(error) && error@ == fault,
        },
        same_outside(old(store)@, final(store)@, seq![owner]),
        done is Ok ==> all_below(final(next)@, final(store)@.len()),
        done is Ok ==> extended(old(next)@, final(next)@, old(store)@.len()),
        done is Ok && final(store)@.len() == old(store)@.len() ==> final(next)@ == old(next)@,
{
    let ghost wanted = ledger@;
    let ghost target = model::drain(store@, registry@, owner@, wanted, 0, handles(next@));
    let requests = ledger.into_requests();
    for request in it: requests
        invariant
            wanted == ledger@,
            target == model::drain(
                old(store)@,
                registry@,
                owner@,
                wanted,
                0,
                handles(old(next)@),
            ),
            wanted.len() == it.seq().len(),
            forall|i: int| 0 <= i < wanted.len() ==> (#[trigger] it.seq()[i])@ == wanted[i],
            owner@ < old(store)@.len(),
            forall|e: int|
                0 <= e < old(store)@.len() && e != owner@ ==> (#[trigger] store@[e]) == old(
                    store,
                )@[e],
            old(store)@.len() <= store@.len(),
            all_below(next@, store@.len()),
            extended(old(next)@, next@, old(store)@.len()),
            store@.len() == old(store)@.len() ==> next@ == old(next)@,
            target == model::drain(
                store@,
                registry@,
                owner@,
                wanted,
                it.index() as nat,
                handles(next@),
            ),
    {
        assert(request@ == wanted[it.index() as int]);
        assert(seq![owner][0] == owner);
        match refused(store, registry, &request) {
            Some(error) => {
                return Err(error);
            },
            None => {},
        }
        let child = store.spawn_empty();
        match populate(store, registry, child, request) {
            Ok(()) => {},
            Err(error) => {
                return Err(error);
            },
        }
        let carries = store.has_ledger(child);
        store.add_child(owner, child);
        let ghost queued = handles(next@);
        if carries {
            next.push(child);
            assert(handles(next@) =~= queued.push(child@));
        }
    }
    assert(seq![owner][0] == owner);
    Ok(())
}

/// Visits one generation: each entity of `batch`, in order, loses its
/// ledger, if it has one, and has it drained into `next`.
fn generation(
    store: &mut EntityStore,
    registry: &Spawnables,
    batch: &Vec<EntityId>,
    next: &mut Vec<EntityId>,
) -> (done: Result<(), SpawnError>)
    requires
        all_below(batch@, old(store)@.len()),
        all_below(old(next)@, old(store)@.len()),
    ensures
        match model::generation(
            old(store)@,
            registry@,
            handles(batch@),
            0,
            handles(old(next)@),
        ) {
            Ok((grown, queued)) => {
                &&& done is Ok
                &&& final(store)@ == grown
                &&& handles(final(next)@) == queued
            },
            Err(fault) => done matches Err(error) && error@ == fault,
        },
        same_outside(old(store)@, final(store)@, batch@),
        done is Ok ==> all_below(final(next)@, final(store)@.len()),
        done is Ok ==> extended(old(next)@, final(next)@, old(store)@.len()),
        done is Ok && final(store)@.len() == old(store)@.len() ==> final(next)@ == old(next)@,
{
    let ghost target = model::generation(
        store@,
        registry@,
        handles(batch@),
        0,
        handles(next@),
    );
    let mut at: usize = 0;
    while at < batch.len()
        invariant
            at <= batch.len(),
            target == model::generation(
                old(store)@,
                registry@,
                handles(batch@),
                0,
                handles(old(next)@),
            ),
            target == model::generation(
                store@,
                registry@,
                handles(batch@),
                at as nat,
                handles(next@),
            ),
            same_outside(old(store)@, store@, batch@),
            all_below(batch@, store@.len()),
            all_below(next@, store@.len()),
            extended(old(next)@, next@, old(store)@.len()),
            store@.len() == old(store)@.len() ==> next@ == old(next)@,
        decreases batch.len() - at,
    {
        let owner = batch[at];
        assert(handles(batch@)[at as int] == owner@);
        let ghost before = store@;
        match store.take_ledger(owner) {
            Some(ledger) => {
                let ghost bare = store@;
                let outcome = drain(store, registry, owner, ledger, next);
                assert(same_outside(old(store)@, store@, batch@)) by {
                    assert forall|e: int| 0 <= e < old(store)@.len() implies {
                        ||| (#[trigger] store@[e]) == old(store)@[e]
                        ||| exists|i: int| 0 <= i < batch@.len() && (#[trigger] batch@[i])@ == e
                    } by {
                        if e == owner@ {
                            assert(batch@[at as int]@ == e);
                        } else {
                            assert(bare[e] == before[e]);
                            if store@[e] != bare[e] {
                                let i = choose|i: int|
                                    0 <= i < seq![owner].len() && (#[trigger] seq![owner][i])@
                                        == e;
                            }
                        }
                    }
                }
                match outcome {
                    Ok(()) => {},
                    Err(error) => {
                        return Err(error);
                    },
                }
            },
            None => {
                assert(store@ =~= before);
            },
        }
        at = at + 1;
    }
    Ok(())
}

/// Runs generations, starting with the work list `batch`, until one leaves
/// no work.
fn generations(store: &mut EntityStore, registry: &Spawnables, batch: Vec<EntityId>) -> (done: Result<
    (),
    SpawnError,
>)
    requires
        all_below(batch@, old(store)@.len()),
    ensures
        match model::generations(old(store)@, registry@, handles(batch@)) {
            Ok(grown) => done is Ok && final(store)@ == grown,
            Err(fault) => done matches Err(error) && error@ == fault,
        },
        same_outside(old(store)@, final(store)@, batch@),
{
    let ghost target = model::generations(store@, registry@, handles(batch@));
    let mut current = batch;
    while current.len() > 0
        invariant
            target == model::generations(old(store)@, registry@, handles(batch@)),
            target == model::generations(store@, registry@, handles(current@)),
            all_below(current@, store@.len()),
            same_outside(old(store)@, store@, batch@),
            current@ == batch@ || extended(Seq::empty(), current@, old(store)@.len()),
        decreases usize::MAX - store@.len(),
    {
        let before = store.len();
        let ghost started = store@;
        let mut next: Vec<EntityId> = Vec::new();
        assert(handles(next@) =~= Seq::<nat>::empty());
        let outcome = generation(store, registry, &current, &mut next);
        assert(same_outside(old(store)@, store@, batch@)) by {
            assert forall|e: int| 0 <= e < old(store)@.len() implies {
                ||| (#[trigger] store@[e]) == old(store)@[e]
                ||| exists|i: int| 0 <= i < batch@.len() && (#[trigger] batch@[i])@ == e
            } by {
                if store@[e] != started[e] {
                    let i = choose|i: int| 0 <= i < current@.len() && (#[trigger] current@[i])@ == e;
                    assert(current@ == batch@);
                }
            }
        }
        match outcome {
            Ok(()) => {},
            Err(error) => {
                return Err(error);
            },
        }
        if store.len() > before {
            current = next;
        } else {
            return Ok(());
        }
    }
    assert(handles(current@).len() == 0);
    Ok(())
}

/// Runs one full child-resolution pass in place, given the entities that
/// carry a ledger. Of the entities that were there only these are changed,
/// whether the pass succeeds or fails.
pub(crate) fn run_pass(store: &mut EntityStore, registry: &Spawnables, owners: &Vec<EntityId>) -> (done:
    Result<(), SpawnError>)
    requires
        handles(owners@) == model::pending(old(store)@),
    ensures
        match model::pass(old(store)@, registry@) {
            Ok(grown) => done is Ok && final(store)@ == grown,
            Err(fault) => done matches Err(error) && error@ == fault,
        },
        same_outside(old(store)@, final(store)@, owners@),
{
    let batch = owners.clone();
    assert(batch@ =~= owners@);
    proof {
        model::lemma_pending_bounds(store@, store@.len());
        assert forall|i: int| 0 <= i < batch@.len() implies (#[trigger] batch@[i])@
            < store@.len() by {
            assert(handles(batch@)[i] == batch@[i]@);
        }
    }
    generations(store, registry, batch)
}

/// Materialises all pending children, generation by generation, until no
/// entity carries a ledger: one full child-resolution pass.
///
/// A pass that meets an unknown key or a full store reports it and leaves
/// the store exactly as it was.
pub fn invoke_spawn_children(store: &mut EntityStore, registry: &Spawnables) -> (done: Result<
    (),
    SpawnError,
>)
    ensures
        match model::pass(old(store)@, registry@) {
            Ok(grown) => done is Ok && final(store)@ == grown,
            Err(fault) => {
                &&& done matches Err(error)
                &&& error@ == fault
                &&& final(store)@ == old(store)@
            },
        },
{
    let base = store.len();
    let ghost before = store@;
    let owners = store.pending();
    let saved = store.snapshots(&owners);
    match run_pass(store, registry, &owners) {
        Ok(()) => Ok(()),
        Err(error) => {
            store.rollback(base, &owners, saved, Ghost(before));
            Err(error)
        },
    }
}

/// The driver: runs a pass if any entity carries a ledger, and does nothing
/// at all otherwise.
pub fn force_spawn_children(store: &mut EntityStore, registry: &Spawnables) -> (done: Result<
    (),
    SpawnError,
>)
    ensures
        match model::pass(old(store)@, registry@) {
            Ok(grown) => done is Ok && final(store)@ == grown,
            Err(fault) => {
                &&& done matches Err(error)
                &&& error@ == fault
                &&& final(store)@ == old(store)@
            },
        },
        !model::has_pending(old(store)@) ==> done is Ok && *final(store) == *old(store),
{
    if store.should_spawn_children() {
        invoke_spawn_children(store, registry)
    } else {
        proof {
            model::lemma_pass_without_pending(store@, registry@);
        }
        Ok(())
    }
}

} // verus!

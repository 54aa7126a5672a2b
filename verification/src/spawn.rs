//! The spawn entry points, immediate and deferred.

use crate::bundle::{Bundle, ChildRequest};
use crate::engine::{populate, refused, run_pass};
use crate::error::SpawnError;
use crate::key::SpawnKey;
use crate::model;
use crate::model::{CommandView, Fault, RegistryView, RequestView, StoreView};
use crate::registry::Spawnables;
use crate::store::{handles, EntityId, EntityStore};
use vstd::prelude::*;

verus! {

/// What an immediate spawn of `request` owes: on success the handle of the
/// new entity, which is the old length of the store, and the store after the
/// new entity was populated and a full pass ran; on failure the fault, and
/// the store as it was.
pub open spec fn spawned_now(
    before: StoreView,
    registry: RegistryView,
    request: RequestView,
    after: StoreView,
    outcome: Result<EntityId, SpawnError>,
) -> bool {
    match model::spawn_now(before, registry, request) {
        Ok(grown) => {
            &&& outcome matches Ok(entity)
            &&& entity@ == before.len()
            &&& after == grown
        },
        Err(fault) => {
            &&& outcome matches Err(error)
            &&& error@ == fault
            &&& after == before
        },
    }
}

/// Spawning directly into a store: the entity that is returned is populated,
/// and all its descendants are materialised, when the call returns.
pub trait SpawnWorld: View<V = StoreView> + Sized {
    /// Spawns from a repeatable constructor: a copy of `spawnable` is used up.
    fn spawn_with(&mut self, registry: &Spawnables, spawnable: &Bundle) -> (spawned: Result<
        EntityId,
        SpawnError,
    >)
        ensures
            spawned_now(
                old(self)@,
                registry@,
                RequestView::Inline(spawnable@),
                final(self)@,
                spawned,
            ),
    ;

    /// Spawns from a consuming constructor.
    fn spawn_once_with(&mut self, registry: &Spawnables, spawnable: Bundle) -> (spawned: Result<
        EntityId,
        SpawnError,
    >)
        ensures
            spawned_now(
                old(self)@,
                registry@,
                RequestView::Inline(spawnable@),
                final(self)@,
                spawned,
            ),
    ;

    /// Spawns from the prototype registered under `key`.
    fn spawn_key(&mut self, registry: &Spawnables, key: SpawnKey) -> (spawned: Result<
        EntityId,
        SpawnError,
    >)
        ensures
            spawned_now(old(self)@, registry@, RequestView::ByKey(key@), final(self)@, spawned),
    ;

    /// Spawns from the prototype registered under `key` and merges `bundle`
    /// into the new entity after it.
    fn spawn_key_with(&mut self, registry: &Spawnables, key: SpawnKey, bundle: Bundle) -> (spawned:
        Result<EntityId, SpawnError>)
        ensures
            spawned_now(
                old(self)@,
                registry@,
                RequestView::ByKeyWith(key@, bundle@),
                final(self)@,
                spawned,
            ),
    ;
}

/// Creates an entity for `request`, populates it and runs a full pass.
fn spawn_request(store: &mut EntityStore, registry: &Spawnables, request: ChildRequest) -> (spawned:
    Result<EntityId, SpawnError>)
    ensures
        spawned_now(old(store)@, registry@, request@, final(store)@, spawned),
{
    match refused(store, registry, &request) {
        Some(error) => {
            return Err(error);
        },
        None => {},
    }
    let base = store.len();
    let ghost before = store@;
    let owners = store.pending();
    let saved = store.snapshots(&owners);
    let entity = store.spawn_empty();
    match populate(store, registry, entity, request) {
        Ok(()) => {},
        Err(error) => {
            store.rollback(base, &owners, saved, Ghost(before));
            return Err(error);
        },
    }
    let ghost placed = store@;
    let mut batch = owners.clone();
    assert(batch@ =~= owners@);
    if store.has_ledger(entity) {
        batch.push(entity);
    }
    proof {
        model::lemma_pending_agrees(before, placed, before.len());
        assert(handles(batch@) =~= model::pending(placed));
    }
    match run_pass(store, registry, &batch) {
        Ok(()) => Ok(entity),
        Err(error) => {
            proof {
                model::lemma_pending_bounds(before, before.len());
                assert forall|e: int| 0 <= e < before.len() implies {
                    ||| (#[trigger] store@[e]) == before[e]
                    ||| exists|i: int| 0 <= i < owners@.len() && (#[trigger] owners@[i])@ == e
                } by {
                    assert(placed[e] == before[e]);
                    if store@[e] != placed[e] {
                        let i = choose|i: int|
                            0 <= i < batch@.len() && (#[trigger] batch@[i])@ == e;
                        assert(i < owners@.len());
                        assert(owners@[i] == batch@[i]);
                    }
                }
            }
            store.rollback(base, &owners, saved, Ghost(before));
            Err(error)
        },
    }
}

impl SpawnWorld for EntityStore {
    fn spawn_with(&mut self, registry: &Spawnables, spawnable: &Bundle) -> (spawned: Result<
        EntityId,
        SpawnError,
    >) {
        spawn_request(self, registry, ChildRequest::Inline(spawnable.duplicate()))
    }

    fn spawn_once_with(&mut self, registry: &Spawnables, spawnable: Bundle) -> (spawned: Result<
        EntityId,
        SpawnError,
    >) {
        spawn_request(self, registry, ChildRequest::Inline(spawnable))
    }

    fn spawn_key(&mut self, registry: &Spawnables, key: SpawnKey) -> (spawned: Result<
        EntityId,
        SpawnError,
    >) {
        spawn_request(self, registry, ChildRequest::ByKey(key))
    }

    fn spawn_key_with(&mut self, registry: &Spawnables, key: SpawnKey, bundle: Bundle) -> (spawned:
        Result<EntityId, SpawnError>) {
        spawn_request(self, registry, ChildRequest::ByKeyWith(key, bundle))
    }
}

/// One unit of deferred work: the entity reserved for it and what to put
/// there.
struct Command {
    entity: EntityId,
    request: ChildRequest,
}

/// Deferred spawns in the order in which they were asked for. Each has its
/// entity in the store already; what the entity is to hold waits for
/// [`CommandBuffer::apply`].
pub struct CommandBuffer {
    queue: Vec<Command>,
}

impl View for CommandBuffer {
    type V = Seq<CommandView>;

    closed spec fn view(&self) -> Seq<CommandView> {
        self.queue@.map_values(|command: Command| (command.entity@, command.request@))
    }
}

/// What a deferred spawn of `request` owes: on success an empty entity at the
/// end of the store, whose handle is returned, and one more command at the
/// end of the queue; on a full store the fault, and nothing changed.
pub open spec fn enqueued(
    before: StoreView,
    queue_before: Seq<CommandView>,
    request: RequestView,
    after: StoreView,
    queue_after: Seq<CommandView>,
    outcome: Result<EntityId, SpawnError>,
) -> bool {
    if before.len() < model::capacity() {
        &&& outcome matches Ok(entity)
        &&& entity@ == before.len()
        &&& after == before.push(model::empty_entity())
        &&& queue_after == queue_before.push((before.len(), request))
    } else {
        &&& outcome matches Err(error)
        &&& error@ == Fault::StoreFull
        &&& after == before
        &&& queue_after == queue_before
    }
}

/// Spawning through a command buffer: the entity exists at once, so that its
/// handle can be handed out, and is populated when the buffer is applied.
/// Its children are materialised by the pass that follows.
pub trait SpawnCommands: View<V = Seq<CommandView>> + Sized {
    /// Defers a spawn from a repeatable constructor: a copy of `spawnable`
    /// is enqueued.
    fn spawn_with(&mut self, world: &mut EntityStore, spawnable: &Bundle) -> (spawned: Result<
        EntityId,
        SpawnError,
    >)
        ensures
            enqueued(
                old(world)@,
                old(self)@,
                RequestView::Inline(spawnable@),
                final(world)@,
                final(self)@,
                spawned,
            ),
    ;

    /// Defers a spawn from a consuming constructor.
    fn spawn_once_with(&mut self, world: &mut EntityStore, spawnable: Bundle) -> (spawned: Result<
        EntityId,
        SpawnError,
    >)
        ensures
            enqueued(
                old(world)@,
                old(self)@,
                RequestView::Inline(spawnable@),
                final(world)@,
                final(self)@,
                spawned,
            ),
    ;

    /// Defers a spawn from the prototype registered under `key`. Whether
    /// `key` is registered is looked up when the buffer is applied.
    fn spawn_key(&mut self, world: &mut EntityStore, key: SpawnKey) -> (spawned: Result<
        EntityId,
        SpawnError,
    >)
        ensures
            enqueued(
                old(world)@,
                old(self)@,
                RequestView::ByKey(key@),
                final(world)@,
                final(self)@,
                spawned,
            ),
    ;

    /// Defers a spawn from the prototype registered under `key`, with
    /// `bundle` merged in after it.
    fn spawn_key_with(&mut self, world: &mut EntityStore, key: SpawnKey, bundle: Bundle) -> (spawned:
        Result<EntityId, SpawnError>)
        ensures
            enqueued(
                old(world)@,
                old(self)@,
                RequestView::ByKeyWith(key@, bundle@),
                final(world)@,
                final(self)@,
                spawned,
            ),
    ;
}

impl CommandBuffer {
    /// A buffer without commands.
    pub fn new() -> (buffer: Self)
        ensures
            buffer@ == Seq::<CommandView>::empty(),
    {
        let buffer = CommandBuffer { queue: Vec::new() };
        assert(buffer@ =~= Seq::<CommandView>::empty());
        buffer
    }

    /// The number of commands that wait.
    pub fn len(&self) -> (n: usize)
        ensures
            n == self@.len(),
    {
        self.queue.len()
    }

    /// Reserves an entity for `request` and enqueues the request.
    fn enqueue(&mut self, world: &mut EntityStore, request: ChildRequest) -> (spawned: Result<
        EntityId,
        SpawnError,
    >)
        ensures
            enqueued(old(world)@, old(self)@, request@, final(world)@, final(self)@, spawned),
    {
        if world.len() == usize::MAX {
            return Err(SpawnError::StoreFull);
        }
        let entity = world.spawn_empty();
        self.queue.push(Command { entity, request });
        assert(self@ =~= old(self)@.push((entity@, request@)));
        Ok(entity)
    }

    /// Applies the commands in the order in which they were enqueued, and
    /// empties the buffer.
    ///
    /// A command with an unknown key, or with an entity that `world` does not
    /// hold, is reported; `world` and the buffer are then left as they were.
    pub fn apply(&mut self, world: &mut EntityStore, registry: &Spawnables) -> (done: Result<
        (),
        SpawnError,
    >)
        ensures
            match model::flush(old(world)@, registry@, old(self)@, 0) {
                Ok(flushed) => {
                    &&& done is Ok
                    &&& final(world)@ == flushed
                    &&& final(self)@ == Seq::<CommandView>::empty()
                },
                Err(fault) => {
                    &&& done matches Err(error)
                    &&& error@ == fault
                    &&& final(world)@ == old(world)@
                    &&& final(self)@ == old(self)@
                },
            },
    {
        let base = world.len();
        let ghost before = world@;
        let ghost target = model::flush(world@, registry@, self@, 0);
        let mut touched: Vec<EntityId> = Vec::new();
        let mut at: usize = 0;
        while at < self.queue.len()
            invariant
                at <= self.queue.len(),
                touched.len() == at,
                forall|i: int| 0 <= i < at ==> (#[trigger] touched[i]) == self.queue[i].entity,
            decreases self.queue.len() - at,
        {
            touched.push(self.queue[at].entity);
            at = at + 1;
        }
        let saved = world.snapshots(&touched);
        let mut at: usize = 0;
        while at < self.queue.len()
            invariant
                at <= self.queue.len(),
                *self == *old(self),
                base == before.len(),
                before == old(world)@,
                world@.len() == before.len(),
                touched.len() == self.queue.len(),
                saved.len() == touched.len(),
                forall|i: int|
                    0 <= i < touched.len() ==> (#[trigger] touched[i]) == self.queue[i].entity,
                forall|i: int|
                    0 <= i < touched.len() ==> match #[trigger] saved[i] {
                        Some(copy) => touched[i]@ < before.len() && copy@ == before[touched[i]@ as int],
                        None => touched[i]@ >= before.len(),
                    },
                forall|e: int|
                    0 <= e < before.len() ==> {
                        ||| (#[trigger] world@[e]) == before[e]
                        ||| exists|i: int| 0 <= i < touched.len() && (#[trigger] touched[i])@ == e
                    },
                target == model::flush(old(world)@, registry@, old(self)@, 0),
                target == model::flush(world@, registry@, self@, at as nat),
            decreases self.queue.len() - at,
        {
            let command = &self.queue[at];
            assert(self@[at as int] == (command.entity@, command.request@));
            if command.entity.0 >= world.len() {
                let error = SpawnError::MissingEntity(command.entity);
                world.rollback(base, &touched, saved, Ghost(before));
                return Err(error);
            }
            let ghost current = world@;
            let outcome = populate(world, registry, command.entity, command.request.duplicate());
            assert forall|e: int| 0 <= e < before.len() implies {
                ||| (#[trigger] world@[e]) == before[e]
                ||| exists|i: int| 0 <= i < touched.len() && (#[trigger] touched[i])@ == e
            } by {
                if e == command.entity@ {
                    assert(touched[at as int]@ == e);
                } else {
                    assert(world@[e] == current[e]);
                }
            }
            match outcome {
                Ok(()) => {},
                Err(error) => {
                    world.rollback(base, &touched, saved, Ghost(before));
                    return Err(error);
                },
            }
            at = at + 1;
        }
        self.queue.clear();
        assert(self@ =~= Seq::<CommandView>::empty());
        Ok(())
    }
}

impl SpawnCommands for CommandBuffer {
    fn spawn_with(&mut self, world: &mut EntityStore, spawnable: &Bundle) -> (spawned: Result<
        EntityId,
        SpawnError,
    >) {
        self.enqueue(world, ChildRequest::Inline(spawnable.duplicate()))
    }

    fn spawn_once_with(&mut self, world: &mut EntityStore, spawnable: Bundle) -> (spawned: Result<
        EntityId,
        SpawnError,
    >) {
        self.enqueue(world, ChildRequest::Inline(spawnable))
    }

    fn spawn_key(&mut self, world: &mut EntityStore, key: SpawnKey) -> (spawned: Result<
        EntityId,
        SpawnError,
    >) {
        self.enqueue(world, ChildRequest::ByKey(key))
    }

    fn spawn_key_with(&mut self, world: &mut EntityStore, key: SpawnKey, bundle: Bundle) -> (spawned:
        Result<EntityId, SpawnError>) {
        self.enqueue(world, ChildRequest::ByKeyWith(key, bundle))
    }
}

impl Default for CommandBuffer {
    fn default() -> (buffer: Self)
        ensures
            buffer@ == Seq::<CommandView>::empty(),
    {
        CommandBuffer::new()
    }
}

} // verus!
